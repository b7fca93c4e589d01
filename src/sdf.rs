use std::sync::Arc;
use vstd::prelude::*;

use crate::frustum_cone::FrustumCone;
use crate::round_cone::{round_cone_lateral, RoundCone};
use crate::vec3::{
    abs, dot_spec, floor_sqrt, floor_sqrt_exec, lemma_floor_sqrt, lemma_floor_sqrt_monotone,
    lemma_mul_bound, max_int, maximum, maximum_spec, min_int, minimum, minimum_spec, Vec3,
    Vec3i, COORD_MAX, FRAC_ONE,
};

verus! {

/// Bound on the magnitude of any distance the kernel computes.
pub const DIST_MAX: i64 = 0x1000_0000_0000_0000;

/// An axis-aligned box, closed on all six faces.
#[derive(Clone, Copy, Debug, PartialEq, Eq, Structural)]
pub struct Aabb {
    pub min: Vec3i,
    pub max: Vec3i,
}

impl Aabb {
    pub open spec fn contains_spec(self, p: Vec3i) -> bool {
        self.min.x <= p.x && self.min.y <= p.y && self.min.z <= p.z && p.x <= self.max.x && p.y
            <= self.max.y && p.z <= self.max.z
    }

    /// Componentwise minimum of the corners and maximum of the far corners.
    pub open spec fn union_spec(self, o: Aabb) -> Aabb {
        Aabb { min: minimum_spec(self.min, o.min), max: maximum_spec(self.max, o.max) }
    }

    /// The box `Intersection` keeps: the larger of both lower corners and the larger
    /// of both upper corners.
    pub open spec fn max_corners_spec(self, o: Aabb) -> Aabb {
        Aabb { min: maximum_spec(self.min, o.min), max: maximum_spec(self.max, o.max) }
    }

    /// `self` lies within `o`.
    pub open spec fn within(self, o: Aabb) -> bool {
        o.min.x <= self.min.x && o.min.y <= self.min.y && o.min.z <= self.min.z && self.max.x
            <= o.max.x && self.max.y <= o.max.y && self.max.z <= o.max.z
    }

    pub fn new(min: Vec3i, max: Vec3i) -> (r: Aabb)
        ensures
            r.min == min,
            r.max == max,
    {
        Aabb { min, max }
    }

    /// Whether `p` lies in the box, faces included.
    pub fn contains(&self, p: Vec3i) -> (r: bool)
        ensures
            r == self.contains_spec(p),
    {
        p.x >= self.min.x && p.y >= self.min.y && p.z >= self.min.z && p.x <= self.max.x && p.y
            <= self.max.y && p.z <= self.max.z
    }

    /// The smallest box enclosing both boxes.
    pub fn union(&self, o: &Aabb) -> (r: Aabb)
        ensures
            r == self.union_spec(*o),
            self.within(r),
            o.within(r),
    {
        Aabb { min: minimum(self.min, o.min), max: maximum(self.max, o.max) }
    }
}

/// What a point inside a solid reports to a material: its distance and three
/// surface parameters, each a fraction of `FRAC_ONE`.
#[derive(Clone, Copy, Debug, PartialEq, Eq, Structural)]
pub struct SDFHitInfo {
    pub distance: i64,
    pub u: i64,
    pub v: i64,
    pub w: i64,
}

pub open spec fn clamp(a: int, lo: int, hi: int) -> int {
    if a < lo {
        lo
    } else if a > hi {
        hi
    } else {
        a
    }
}

/// Squared Euclidean distance between two points.
pub open spec fn dist2(p: Vec3i, c: Vec3i) -> int {
    (p.x - c.x) * (p.x - c.x) + (p.y - c.y) * (p.y - c.y) + (p.z - c.z) * (p.z - c.z)
}

/// A point inside the kernel's coordinate range.
pub open spec fn in_range(v: Vec3i) -> bool {
    abs(v.x as int) <= COORD_MAX && abs(v.y as int) <= COORD_MAX && abs(v.z as int) <= COORD_MAX
}

/// A radius inside the kernel's coordinate range.
pub open spec fn radius_ok(r: int) -> bool {
    abs(r) <= COORD_MAX
}

pub proof fn lemma_dist2_bound(p: Vec3i, c: Vec3i)
    requires
        in_range(p),
        in_range(c),
    ensures
        0 <= dist2(p, c) <= 0x1000_0000,
        0 <= (p.x - c.x) * (p.x - c.x) <= 0x400_0000,
        0 <= (p.y - c.y) * (p.y - c.y) <= 0x400_0000,
        0 <= (p.z - c.z) * (p.z - c.z) <= 0x400_0000,
{
    let m: int = 8192;
    lemma_mul_bound(p.x - c.x, p.x - c.x, m, m);
    lemma_mul_bound(p.y - c.y, p.y - c.y, m, m);
    lemma_mul_bound(p.z - c.z, p.z - c.z, m, m);
    assert((p.x - c.x) * (p.x - c.x) >= 0 && (p.y - c.y) * (p.y - c.y) >= 0 && (p.z - c.z) * (
    p.z - c.z) >= 0) by (nonlinear_arith);
}

// ---------------------------------------------------------------- sphere
/// A ball around `center`.
#[derive(Clone, Copy, Debug, PartialEq, Eq, Structural)]
pub struct Sphere {
    pub center: Vec3i,
    pub radius: i64,
    pub bounding_box: Aabb,
}

/// Distance from `p` to the sphere's surface: the Euclidean distance to the
/// center, rounded down, minus the radius.
pub open spec fn sphere_distance(c: Vec3i, r: int, p: Vec3i) -> int {
    floor_sqrt(dist2(p, c)) - r
}

pub open spec fn sphere_box(c: Vec3i, r: int) -> Aabb {
    Aabb {
        min: Vec3 { x: (c.x - r) as i64, y: (c.y - r) as i64, z: (c.z - r) as i64 },
        max: Vec3 { x: (c.x + r) as i64, y: (c.y + r) as i64, z: (c.z + r) as i64 },
    }
}

impl Sphere {
    pub open spec fn wf(self) -> bool {
        in_range(self.center) && radius_ok(self.radius as int) && self.bounding_box
            == sphere_box(self.center, self.radius as int)
    }

    pub open spec fn distance_spec(self, p: Vec3i) -> int {
        sphere_distance(self.center, self.radius as int, p)
    }

    /// The surface parameters at a point with distance `d <= 0`: `u` is the
    /// distance over the radius, clamped to `[0, 1]`.
    pub open spec fn hit_spec(self, p: Vec3i) -> Option<SDFHitInfo> {
        let d = self.distance_spec(p);
        if d <= 0 {
            Some(
                SDFHitInfo {
                    distance: d as i64,
                    u: if self.radius > 0 {
                        clamp((d * FRAC_ONE) / (self.radius as int), 0, FRAC_ONE as int) as i64
                    } else {
                        0
                    },
                    v: 0,
                    w: 0,
                },
            )
        } else {
            None
        }
    }

    pub fn new(center: Vec3i, radius: i64) -> (r: Sphere)
        requires
            in_range(center),
            radius_ok(radius as int),
        ensures
            r.wf(),
            r.center == center,
            r.radius == radius,
    {
        Sphere {
            center,
            radius,
            bounding_box: Aabb::new(center.sub_scalar(radius), center.add_scalar(radius)),
        }
    }

    pub fn distance(&self, p: Vec3i) -> (r: i64)
        requires
            self.wf(),
            in_range(p),
        ensures
            r == self.distance_spec(p),
            abs(r as int) <= DIST_MAX,
    {
        proof {
            lemma_dist2_bound(p, self.center);
            lemma_floor_sqrt(dist2(p, self.center));
        }
        let dx = (p.x - self.center.x) as i128;
        let dy = (p.y - self.center.y) as i128;
        let dz = (p.z - self.center.z) as i128;
        let n = dx * dx + dy * dy + dz * dz;
        let s = floor_sqrt_exec(n as u128);
        s as i64 - self.radius
    }

    pub fn inside(&self, p: Vec3i) -> (r: bool)
        requires
            self.wf(),
            in_range(p),
        ensures
            r == (self.bounding_box.contains_spec(p) && self.distance_spec(p) < 0),
    {
        self.bounding_box.contains(p) && self.distance(p) < 0
    }

    pub fn bounding_box(&self) -> (r: Aabb)
        ensures
            r == self.bounding_box,
    {
        self.bounding_box
    }

    pub fn hit(&self, p: Vec3i) -> (r: Option<SDFHitInfo>)
        requires
            self.wf(),
            in_range(p),
        ensures
            r == self.hit_spec(p),
    {
        let d = self.distance(p);
        if d <= 0 {
            let u = if self.radius > 0 {
                proof {
                    lemma_dist2_bound(p, self.center);
                    lemma_floor_sqrt(dist2(p, self.center));
                }
                let q = crate::vec3::floor_div(d * FRAC_ONE, self.radius);
                if q < 0 {
                    0
                } else if q > FRAC_ONE {
                    FRAC_ONE
                } else {
                    q
                }
            } else {
                0
            };
            Some(SDFHitInfo { distance: d, u, v: 0, w: 0 })
        } else {
            None
        }
    }

    /// This sphere as a general shape.
    pub fn into(self) -> (r: DynSDF)
        ensures
            r == DynSDF::Sphere(self),
    {
        DynSDF::Sphere(self)
    }
}

// ---------------------------------------------------------------- composition
/// Both solids together.
#[derive(Clone, Debug)]
pub struct Union {
    pub a: Arc<DynSDF>,
    pub b: Arc<DynSDF>,
    pub bounding_box: Aabb,
}

/// The part the two solids share.
#[derive(Clone, Debug)]
pub struct Intersection {
    pub a: Arc<DynSDF>,
    pub b: Arc<DynSDF>,
    pub bounding_box: Aabb,
}

/// The first solid with the second taken away.
#[derive(Clone, Debug)]
pub struct Difference {
    pub a: Arc<DynSDF>,
    pub b: Arc<DynSDF>,
    pub bounding_box: Aabb,
}

/// A signed distance field: a primitive shape or a combination of two fields.
#[derive(Clone, Debug)]
pub enum DynSDF {
    Sphere(Sphere),
    RoundCone(RoundCone),
    FrustumCone(FrustumCone),
    Union(Union),
    Intersection(Intersection),
    Difference(Difference),
}

impl DynSDF {
    /// Parameters in range and every cached box equal to the one its parts give.
    pub open spec fn wf(self) -> bool
        decreases self,
    {
        match self {
            DynSDF::Sphere(s) => s.wf(),
            DynSDF::RoundCone(c) => c.wf(),
            DynSDF::FrustumCone(c) => c.wf(),
            DynSDF::Union(u) => u.a.wf() && u.b.wf() && u.bounding_box == u.a.bbox().union_spec(
                u.b.bbox(),
            ),
            DynSDF::Intersection(u) => u.a.wf() && u.b.wf() && u.bounding_box
                == u.a.bbox().max_corners_spec(u.b.bbox()),
            DynSDF::Difference(u) => u.a.wf() && u.b.wf() && u.bounding_box == u.a.bbox(),
        }
    }

    /// The cached bounding box.
    pub open spec fn bbox(self) -> Aabb {
        match self {
            DynSDF::Sphere(s) => s.bounding_box,
            DynSDF::RoundCone(c) => c.bounding_box,
            DynSDF::FrustumCone(c) => c.bounding_box,
            DynSDF::Union(u) => u.bounding_box,
            DynSDF::Intersection(u) => u.bounding_box,
            DynSDF::Difference(u) => u.bounding_box,
        }
    }

    pub open spec fn distance_spec(self, p: Vec3i) -> int
        decreases self,
    {
        match self {
            DynSDF::Sphere(s) => s.distance_spec(p),
            DynSDF::RoundCone(c) => c.distance_spec(p),
            DynSDF::FrustumCone(c) => c.distance_spec(p),
            DynSDF::Union(u) => min_int(u.a.distance_spec(p), u.b.distance_spec(p)),
            DynSDF::Intersection(u) => max_int(u.a.distance_spec(p), u.b.distance_spec(p)),
            DynSDF::Difference(u) => max_int(u.a.distance_spec(p), -u.b.distance_spec(p)),
        }
    }

    pub open spec fn inside_spec(self, p: Vec3i) -> bool
        decreases self,
    {
        self.bbox().contains_spec(p) && match self {
            DynSDF::Sphere(s) => s.distance_spec(p) < 0,
            DynSDF::RoundCone(c) => c.distance_spec(p) < 0,
            DynSDF::FrustumCone(c) => c.distance_spec(p) < 0,
            DynSDF::Union(u) => u.a.inside_spec(p) || u.b.inside_spec(p),
            DynSDF::Intersection(u) => u.a.inside_spec(p) && u.b.inside_spec(p),
            DynSDF::Difference(u) => u.a.inside_spec(p) && !u.b.inside_spec(p),
        }
    }

    pub open spec fn hit_spec(self, p: Vec3i) -> Option<SDFHitInfo> {
        match self {
            DynSDF::Sphere(s) => s.hit_spec(p),
            DynSDF::RoundCone(c) => c.hit_spec(p),
            _ => if self.distance_spec(p) < 0 {
                Some(SDFHitInfo { distance: self.distance_spec(p) as i64, u: 0, v: 0, w: 0 })
            } else {
                None
            },
        }
    }

}

/// Bound on the corners of any box the kernel builds.
pub const BOX_MAX: i64 = 0x200_0000_0000_0000;

/// Corners within `BOX_MAX`.
pub open spec fn box_ok(b: Aabb) -> bool {
    abs(b.min.x as int) <= BOX_MAX && abs(b.min.y as int) <= BOX_MAX && abs(b.min.z as int)
        <= BOX_MAX && abs(b.max.x as int) <= BOX_MAX && abs(b.max.y as int) <= BOX_MAX && abs(
        b.max.z as int,
    ) <= BOX_MAX
}

/// The union of two such boxes is one too.
pub proof fn lemma_union_box_ok(a: Aabb, b: Aabb)
    requires
        box_ok(a),
        box_ok(b),
    ensures
        box_ok(a.union_spec(b)),
        box_ok(a.max_corners_spec(b)),
{
}

pub proof fn lemma_sphere_box_ok(c: Vec3i, r: int)
    requires
        in_range(c),
        radius_ok(r),
    ensures
        box_ok(sphere_box(c, r)),
{
}

/// Every cached box of a well-formed field lies within twice the coordinate range.
pub proof fn lemma_bbox_ok(s: &DynSDF)
    requires
        s.wf(),
    ensures
        box_ok(s.bbox()),
    decreases s,
{
    match s {
        DynSDF::Sphere(sp) => lemma_sphere_box_ok(sp.center, sp.radius as int),
        DynSDF::RoundCone(c) => {
            lemma_sphere_box_ok(c.a, c.ra as int);
            lemma_sphere_box_ok(c.b, c.rb as int);
            lemma_union_box_ok(sphere_box(c.a, c.ra as int), sphere_box(c.b, c.rb as int));
        },
        DynSDF::FrustumCone(_) => {},
        DynSDF::Union(u) => {
            lemma_bbox_ok(&*u.a);
            lemma_bbox_ok(&*u.b);
        },
        DynSDF::Intersection(u) => {
            lemma_bbox_ok(&*u.a);
            lemma_bbox_ok(&*u.b);
        },
        DynSDF::Difference(u) => {
            lemma_bbox_ok(&*u.a);
        },
    }
}

impl DynSDF {
    pub fn distance(&self, p: Vec3i) -> (r: i64)
        requires
            self.wf(),
            in_range(p),
        ensures
            r == self.distance_spec(p),
            abs(r as int) <= DIST_MAX,
        decreases self,
    {
        match self {
            DynSDF::Sphere(s) => s.distance(p),
            DynSDF::RoundCone(c) => c.distance(p),
            DynSDF::FrustumCone(c) => c.distance(p),
            DynSDF::Union(u) => {
                let da = u.a.distance(p);
                let db = u.b.distance(p);
                if da < db { da } else { db }
            },
            DynSDF::Intersection(u) => {
                let da = u.a.distance(p);
                let db = u.b.distance(p);
                if da > db { da } else { db }
            },
            DynSDF::Difference(u) => {
                let da = u.a.distance(p);
                let db = u.b.distance(p);
                if da > -db { da } else { -db }
            },
        }
    }

    pub fn bounding_box(&self) -> (r: Aabb)
        ensures
            r == self.bbox(),
    {
        match self {
            DynSDF::Sphere(s) => s.bounding_box,
            DynSDF::RoundCone(c) => c.bounding_box,
            DynSDF::FrustumCone(c) => c.bounding_box,
            DynSDF::Union(u) => u.bounding_box,
            DynSDF::Intersection(u) => u.bounding_box,
            DynSDF::Difference(u) => u.bounding_box,
        }
    }

    /// Whether `p` lies within the bounding box, faces included.
    pub fn inside_bounding_box(&self, p: Vec3i) -> (r: bool)
        ensures
            r == self.bbox().contains_spec(p),
    {
        self.bounding_box().contains(p)
    }

    /// Whether `p` lies inside the solid. The box test comes first and decides
    /// alone when it fails.
    pub fn inside(&self, p: Vec3i) -> (r: bool)
        requires
            self.wf(),
            in_range(p),
        ensures
            r == self.inside_spec(p),
        decreases self,
    {
        if !self.inside_bounding_box(p) {
            return false;
        }
        match self {
            DynSDF::Sphere(s) => s.distance(p) < 0,
            DynSDF::RoundCone(c) => c.distance(p) < 0,
            DynSDF::FrustumCone(c) => c.distance(p) < 0,
            DynSDF::Union(u) => u.a.inside(p) || u.b.inside(p),
            DynSDF::Intersection(u) => u.a.inside(p) && u.b.inside(p),
            DynSDF::Difference(u) => u.a.inside(p) && !u.b.inside(p),
        }
    }

    /// The surface parameters at `p` when `p` is in the solid.
    pub fn hit(&self, p: Vec3i) -> (r: Option<SDFHitInfo>)
        requires
            self.wf(),
            in_range(p),
        ensures
            r == self.hit_spec(p),
    {
        match self {
            DynSDF::Sphere(s) => s.hit(p),
            DynSDF::RoundCone(c) => c.hit(p),
            _ => {
                let d = self.distance(p);
                if d < 0 {
                    Some(SDFHitInfo { distance: d, u: 0, v: 0, w: 0 })
                } else {
                    None
                }
            },
        }
    }
}

impl Union {
    pub fn new(a: DynSDF, b: DynSDF) -> (r: Union)
        requires
            a.wf(),
            b.wf(),
        ensures
            *r.a == a,
            *r.b == b,
            r.bounding_box == a.bbox().union_spec(b.bbox()),
    {
        let bounding_box = a.bounding_box().union(&b.bounding_box());
        Union { a: Arc::new(a), b: Arc::new(b), bounding_box }
    }
}

impl Intersection {
    pub fn new(a: DynSDF, b: DynSDF) -> (r: Intersection)
        requires
            a.wf(),
            b.wf(),
        ensures
            *r.a == a,
            *r.b == b,
            r.bounding_box == a.bbox().max_corners_spec(b.bbox()),
    {
        let ba = a.bounding_box();
        let bb = b.bounding_box();
        let bounding_box = Aabb::new(maximum(ba.min, bb.min), maximum(ba.max, bb.max));
        Intersection { a: Arc::new(a), b: Arc::new(b), bounding_box }
    }
}

impl Difference {
    pub fn new(a: DynSDF, b: DynSDF) -> (r: Difference)
        requires
            a.wf(),
            b.wf(),
        ensures
            *r.a == a,
            *r.b == b,
            r.bounding_box == a.bbox(),
    {
        let bounding_box = a.bounding_box();
        Difference { a: Arc::new(a), b: Arc::new(b), bounding_box }
    }
}

/// The union of two fields.
pub fn merge(a: DynSDF, b: DynSDF) -> (r: DynSDF)
    requires
        a.wf(),
        b.wf(),
    ensures
        r.wf(),
        r matches DynSDF::Union(u) && *u.a == a && *u.b == b,
{
    DynSDF::Union(Union::new(a, b))
}

/// The intersection of two fields.
pub fn intersect(a: DynSDF, b: DynSDF) -> (r: DynSDF)
    requires
        a.wf(),
        b.wf(),
    ensures
        r.wf(),
        r matches DynSDF::Intersection(u) && *u.a == a && *u.b == b,
{
    DynSDF::Intersection(Intersection::new(a, b))
}

/// `a` with `b` taken away.
pub fn subtract(a: DynSDF, b: DynSDF) -> (r: DynSDF)
    requires
        a.wf(),
        b.wf(),
    ensures
        r.wf(),
        r matches DynSDF::Difference(u) && *u.a == a && *u.b == b,
{
    DynSDF::Difference(Difference::new(a, b))
}

} // verus!

verus! {

/// No solid subtracted anywhere in the tree has `p` exactly on its surface.
pub open spec fn clear_of_cuts(s: DynSDF, p: Vec3i) -> bool
    decreases s,
{
    match s {
        DynSDF::Sphere(_) => true,
        DynSDF::RoundCone(_) => true,
        DynSDF::FrustumCone(_) => true,
        DynSDF::Union(u) => clear_of_cuts(*u.a, p) && clear_of_cuts(*u.b, p),
        DynSDF::Intersection(u) => clear_of_cuts(*u.a, p) && clear_of_cuts(*u.b, p),
        DynSDF::Difference(u) => u.b.distance_spec(p) != 0 && clear_of_cuts(*u.a, p)
            && clear_of_cuts(*u.b, p),
    }
}

/// Every round cone in the tree that reports a hit at `p` from the lateral branch of
/// its distance has `p` in its box. (Hits from the end balls lie in the box; see
/// `lemma_round_cone_ends_in_box`.)
pub open spec fn lateral_in_box(s: DynSDF, p: Vec3i) -> bool
    decreases s,
{
    match s {
        DynSDF::Sphere(_) => true,
        DynSDF::RoundCone(c) => c.distance_spec(p) <= 0 && round_cone_lateral(
            c.a,
            c.b,
            c.ra as int,
            c.rb as int,
            p,
        ) ==> c.bounding_box.contains_spec(p),
        DynSDF::FrustumCone(_) => true,
        DynSDF::Union(u) => lateral_in_box(*u.a, p) && lateral_in_box(*u.b, p),
        DynSDF::Intersection(u) => lateral_in_box(*u.a, p) && lateral_in_box(*u.b, p),
        DynSDF::Difference(u) => lateral_in_box(*u.a, p) && lateral_in_box(*u.b, p),
    }
}

pub proof fn lemma_axis_within_norm(d: int, n: int)
    requires
        0 <= d * d <= n,
    ensures
        abs(d) <= floor_sqrt(n),
{
    assert(abs(d) * abs(d) == d * d) by (nonlinear_arith);
    assert(d * d < (abs(d) + 1) * (abs(d) + 1)) by (nonlinear_arith)
        requires abs(d) * abs(d) == d * d, abs(d) >= 0;
    crate::vec3::lemma_floor_sqrt_unique(d * d, abs(d));
    lemma_floor_sqrt_monotone(d * d, n);
}

/// A point no farther from a sphere's center than its radius lies in its box.
proof fn lemma_sphere_near_in_box(s: Sphere, p: Vec3i)
    requires
        s.wf(),
        in_range(p),
        s.distance_spec(p) <= 0,
    ensures
        s.bounding_box.contains_spec(p),
{
    lemma_dist2_bound(p, s.center);
    let n = dist2(p, s.center);
    lemma_axis_within_norm(p.x - s.center.x, n);
    lemma_axis_within_norm(p.y - s.center.y, n);
    lemma_axis_within_norm(p.z - s.center.z, n);
}

/// Where a field's distance is negative, the point lies in the field's box.
pub proof fn lemma_negative_in_box(s: &DynSDF, p: Vec3i)
    requires
        s.wf(),
        in_range(p),
        lateral_in_box(*s, p),
    ensures
        s.distance_spec(p) < 0 ==> s.bbox().contains_spec(p),
    decreases s,
{
    match s {
        DynSDF::Sphere(sp) => {
            if sp.distance_spec(p) < 0 {
                lemma_sphere_near_in_box(*sp, p);
            }
        },
        DynSDF::RoundCone(c) => {
            if c.distance_spec(p) <= 0 && !round_cone_lateral(c.a, c.b, c.ra as int, c.rb as int, p) {
                crate::round_cone::lemma_round_cone_ends_in_box(*c, p);
            }
        },
        DynSDF::FrustumCone(c) => {
            if c.distance_spec(p) < 0 {
                crate::frustum_cone::lemma_frustum_negative_in_box(
                    c.a,
                    c.b,
                    c.ra as int,
                    c.rb as int,
                    p,
                );
            }
        },
        DynSDF::Union(u) => {
            lemma_negative_in_box(&*u.a, p);
            lemma_negative_in_box(&*u.b, p);
        },
        DynSDF::Intersection(u) => {
            lemma_negative_in_box(&*u.a, p);
            lemma_negative_in_box(&*u.b, p);
        },
        DynSDF::Difference(u) => {
            lemma_negative_in_box(&*u.a, p);
        },
    }
}

/// A field reports a hit only at points of its bounding box.
pub proof fn lemma_hit_in_box(s: &DynSDF, p: Vec3i)
    requires
        s.wf(),
        in_range(p),
        lateral_in_box(*s, p),
        s.hit_spec(p) is Some,
    ensures
        s.bbox().contains_spec(p),
{
    match s {
        DynSDF::Sphere(sp) => lemma_sphere_near_in_box(*sp, p),
        DynSDF::RoundCone(c) => {
            if c.distance_spec(p) <= 0 && !round_cone_lateral(c.a, c.b, c.ra as int, c.rb as int, p) {
                crate::round_cone::lemma_round_cone_ends_in_box(*c, p);
            }
        },
        _ => lemma_negative_in_box(s, p),
    }
}

/// A point is inside a field exactly when it is in the box and the distance is
/// negative, as long as it is not on the surface of a subtracted solid.
pub proof fn lemma_inside_is_negative(s: &DynSDF, p: Vec3i)
    requires
        s.wf(),
        in_range(p),
        clear_of_cuts(*s, p),
        lateral_in_box(*s, p),
    ensures
        s.inside_spec(p) == (s.bbox().contains_spec(p) && s.distance_spec(p) < 0),
    decreases s,
{
    match s {
        DynSDF::Sphere(_) => {},
        DynSDF::RoundCone(_) => {},
        DynSDF::FrustumCone(_) => {},
        DynSDF::Union(u) => {
            lemma_inside_is_negative(&*u.a, p);
            lemma_inside_is_negative(&*u.b, p);
            lemma_negative_in_box(&*u.a, p);
            lemma_negative_in_box(&*u.b, p);
        },
        DynSDF::Intersection(u) => {
            lemma_inside_is_negative(&*u.a, p);
            lemma_inside_is_negative(&*u.b, p);
            lemma_negative_in_box(&*u.a, p);
            lemma_negative_in_box(&*u.b, p);
        },
        DynSDF::Difference(u) => {
            lemma_inside_is_negative(&*u.a, p);
            lemma_inside_is_negative(&*u.b, p);
            lemma_negative_in_box(&*u.a, p);
            lemma_negative_in_box(&*u.b, p);
        },
    }
}

/// Sign consistency: within the bounding box, a point is inside exactly when its
/// distance is negative (points on the surface of a subtracted solid aside, where
/// the distance is zero while the point is inside).
pub proof fn lemma_sign_consistency(s: DynSDF, p: Vec3i)
    requires
        s.wf(),
        in_range(p),
        s.bbox().contains_spec(p),
        clear_of_cuts(s, p),
        lateral_in_box(s, p),
    ensures
        s.distance_spec(p) < 0 <==> s.inside_spec(p),
{
    lemma_inside_is_negative(&s, p);
}

/// Bounding-box soundness: a point inside a field lies in its bounding box.
pub proof fn lemma_inside_in_box(s: DynSDF, p: Vec3i)
    requires
        s.inside_spec(p),
    ensures
        s.bbox().contains_spec(p),
{
}

/// The union's distance is the smaller of its parts' distances.
pub proof fn lemma_union_distance(u: DynSDF, a: DynSDF, b: DynSDF, p: Vec3i)
    requires
        u matches DynSDF::Union(x) && *x.a == a && *x.b == b,
    ensures
        u.distance_spec(p) == min_int(a.distance_spec(p), b.distance_spec(p)),
{
}

/// A point inside a difference is inside the first solid and not inside the second.
pub proof fn lemma_difference_inside(d: DynSDF, a: DynSDF, b: DynSDF, p: Vec3i)
    requires
        d matches DynSDF::Difference(x) && *x.a == a && *x.b == b,
        d.inside_spec(p),
    ensures
        a.inside_spec(p),
        !b.inside_spec(p),
{
}

} // verus!
