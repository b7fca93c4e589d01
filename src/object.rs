use vstd::prelude::*;

use crate::material::{Color, DynMaterial};
use crate::sdf::{in_range, Aabb, DynSDF};
use crate::vec3::Vec3i;

verus! {

/// A solid with a material.
#[derive(Clone, Debug)]
pub struct SDFObject {
    pub sdf: DynSDF,
    pub material: DynMaterial,
}

impl SDFObject {
    pub open spec fn wf(self) -> bool {
        self.sdf.wf() && self.material.wf()
    }

    pub open spec fn bbox(self) -> Aabb {
        self.sdf.bbox()
    }

    /// The material's color where the solid reports a hit.
    pub open spec fn hit_spec(self, p: Vec3i) -> Option<Color> {
        match self.sdf.hit_spec(p) {
            Some(h) => Some(self.material.hit_spec(h)),
            None => None,
        }
    }

    pub fn new(sdf: DynSDF, material: DynMaterial) -> (r: SDFObject)
        ensures
            r.sdf == sdf,
            r.material == material,
    {
        SDFObject { sdf, material }
    }

    pub fn hit(&self, p: Vec3i) -> (r: Option<Color>)
        requires
            self.wf(),
            in_range(p),
        ensures
            r == self.hit_spec(p),
    {
        match self.sdf.hit(p) {
            Some(h) => Some(self.material.hit(h)),
            None => None,
        }
    }

    pub fn bounding_box(&self) -> (r: Aabb)
        ensures
            r == self.bbox(),
    {
        self.sdf.bounding_box()
    }
}

} // verus!
