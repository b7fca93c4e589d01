use vstd::prelude::*;

use crate::sdf::{box_ok, in_range, radius_ok, Aabb, DynSDF};
use crate::vec3::{
    abs, dot_spec, floor_div_i128, floor_sqrt, floor_sqrt_exec, lemma_div_abs_le,
    lemma_div_bound, lemma_floor_sqrt, lemma_floor_sqrt_monotone, lemma_floor_sqrt_unique,
    lemma_mul_bound, max_int, maximum, min_int, minimum, Vec3, Vec3i, FRAC_ONE,
};

verus! {

/// `v` projected onto the plane normal to `n`, scaled by `|n|^2` so that it stays
/// integral: `v |n|^2 - n (v . n)`.
pub open spec fn proj_on_plane_spec(v: Vec3i, n: Vec3i) -> Vec3i {
    let n2 = dot_spec(n, n);
    let vn = dot_spec(v, n);
    Vec3 {
        x: (v.x * n2 - n.x * vn) as i64,
        y: (v.y * n2 - n.y * vn) as i64,
        z: (v.z * n2 - n.z * vn) as i64,
    }
}

/// Projects `vec` onto the plane normal to `plane_normal_vec`; the result is scaled
/// by the squared length of the normal.
pub fn proj_vector_on_plane(vec: Vec3i, plane_normal_vec: Vec3i) -> (r: Vec3i)
    requires
        crate::vec3::bounded_by(vec, 0x2000),
        crate::vec3::bounded_by(plane_normal_vec, 0x2000),
    ensures
        r == proj_on_plane_spec(vec, plane_normal_vec),
        crate::vec3::bounded_by(r, 0x400_0000_0000),
{
    let v = vec;
    let n = plane_normal_vec;
    let ghost m13: int = 0x2000;
    let ghost m28: int = 0x1000_0000;
    proof {
        lemma_mul_bound(n.x as int, n.x as int, m13, m13);
        lemma_mul_bound(n.y as int, n.y as int, m13, m13);
        lemma_mul_bound(n.z as int, n.z as int, m13, m13);
        lemma_mul_bound(v.x as int, n.x as int, m13, m13);
        lemma_mul_bound(v.y as int, n.y as int, m13, m13);
        lemma_mul_bound(v.z as int, n.z as int, m13, m13);
    }
    let n2 = n.x * n.x + n.y * n.y + n.z * n.z;
    let vn = v.x * n.x + v.y * n.y + v.z * n.z;
    proof {
        lemma_mul_bound(v.x as int, n2 as int, m13, m28);
        lemma_mul_bound(v.y as int, n2 as int, m13, m28);
        lemma_mul_bound(v.z as int, n2 as int, m13, m28);
        lemma_mul_bound(n.x as int, vn as int, m13, m28);
        lemma_mul_bound(n.y as int, vn as int, m13, m28);
        lemma_mul_bound(n.z as int, vn as int, m13, m28);
    }
    Vec3::new(v.x * n2 - n.x * vn, v.y * n2 - n.y * vn, v.z * n2 - n.z * vn)
}

/// Half-width of the box along one axis, for a disk of radius `r` whose normal is
/// `up` (with `u2 = |up|^2` and `upi` the axis component): one more than the
/// rounded-down `r sqrt(1 - upi^2 / u2)`, so never less than the disk's reach.
pub open spec fn half_width(r: int, upi: int, u2: int) -> int {
    floor_sqrt((r * r * (u2 - upi * upi)) / u2) + 1
}

/// The larger end radius, in magnitude.
pub open spec fn frustum_radius(ra: int, rb: int) -> int {
    max_int(abs(ra), abs(rb))
}

/// The box of a frustum: the box of the two end centers, widened along each axis
/// by the reach of a disk of the larger end radius lying across the cone's axis.
/// A frustum of zero height gets the box of the ball of that radius.
#[verifier::opaque]
pub open spec fn frustum_box(a: Vec3i, b: Vec3i, ra: int, rb: int) -> Aabb {
    let upx = a.x - b.x;
    let upy = a.y - b.y;
    let upz = a.z - b.z;
    let u2 = upx * upx + upy * upy + upz * upz;
    let r = frustum_radius(ra, rb);
    if u2 == 0 {
        Aabb {
            min: Vec3 { x: (a.x - r) as i64, y: (a.y - r) as i64, z: (a.z - r) as i64 },
            max: Vec3 { x: (a.x + r) as i64, y: (a.y + r) as i64, z: (a.z + r) as i64 },
        }
    } else {
        let hx = half_width(r, upx, u2);
        let hy = half_width(r, upy, u2);
        let hz = half_width(r, upz, u2);
        Aabb {
            min: Vec3 {
                x: (min_int(a.x as int, b.x as int) - hx) as i64,
                y: (min_int(a.y as int, b.y as int) - hy) as i64,
                z: (min_int(a.z as int, b.z as int) - hz) as i64,
            },
            max: Vec3 {
                x: (max_int(a.x as int, b.x as int) + hx) as i64,
                y: (max_int(a.y as int, b.y as int) + hy) as i64,
                z: (max_int(a.z as int, b.z as int) + hz) as i64,
            },
        }
    }
}

/// Radial distance of `p` from the axis, as a fraction of `FRAC_ONE`, from
/// `papa = |pa|^2`, `baba = |ba|^2` and `t = pa . ba`.
pub open spec fn frustum_radial(papa: int, baba: int, t: int) -> int {
    floor_sqrt((max_int(0, papa * baba - t * t) * FRAC_ONE * FRAC_ONE) / baba)
}

/// Position of `p` along the axis, as a fraction of `FRAC_ONE`.
pub open spec fn frustum_axial(baba: int, t: int) -> int {
    (t * FRAC_ONE) / baba
}

/// The distance from the radial distance `x` and the axial position `paba` (both
/// fractions of `FRAC_ONE`): the smaller of the distances to the cap region (`cax`,
/// `cay`) and to the lateral side (`cbx`, `cby`), negative when the point is both
/// between the caps and under the side.
pub open spec fn frustum_tail(x: int, paba: int, t: int, baba: int, ra: int, rb: int) -> int {
    let s = FRAC_ONE as int;
    let cax = max_int(0, x - (if paba < s / 2 { ra } else { rb }) * s);
    let cay = abs(paba - s / 2) - s / 2;
    let rba = rb - ra;
    let k = rba * rba + baba;
    let f0 = (rba * (x - ra * s) + t * s) / k;
    let f = if f0 < 0 {
        0
    } else if f0 > s {
        s
    } else {
        f0
    };
    let cbx = x - ra * s - f * rba;
    let cby = paba - f;
    let sgn = if cbx < 0 && cay < 0 {
        -1int
    } else {
        1int
    };
    let m = min_int(cax * cax + cay * cay * baba, cbx * cbx + cby * cby * baba);
    (sgn * floor_sqrt(m)) / s
}

/// Distance to a capped cone, with `ba = b - a` and `pa = p - a`; square roots and
/// divisions round down. A frustum of zero height is the ball of radius `ra`.
pub open spec fn frustum_distance(a: Vec3i, b: Vec3i, ra: int, rb: int, p: Vec3i) -> int {
    let bax = b.x - a.x;
    let bay = b.y - a.y;
    let baz = b.z - a.z;
    let pax = p.x - a.x;
    let pay = p.y - a.y;
    let paz = p.z - a.z;
    let baba = bax * bax + bay * bay + baz * baz;
    let papa = pax * pax + pay * pay + paz * paz;
    if baba == 0 {
        floor_sqrt(papa) - ra
    } else {
        let t = pax * bax + pay * bay + paz * baz;
        frustum_tail(
            frustum_radial(papa, baba, t),
            frustum_axial(baba, t),
            t,
            baba,
            ra,
            rb,
        )
    }
}

/// A cone cut flat at both ends.
#[derive(Clone, Copy, Debug, PartialEq, Eq, Structural)]
pub struct FrustumCone {
    pub a: Vec3i,
    pub b: Vec3i,
    pub ra: i64,
    pub rb: i64,
    pub bounding_box: Aabb,
}

impl FrustumCone {
    pub open spec fn wf(self) -> bool {
        in_range(self.a) && in_range(self.b) && radius_ok(self.ra as int) && radius_ok(
            self.rb as int,
        ) && self.bounding_box == frustum_box(self.a, self.b, self.ra as int, self.rb as int)
            && box_ok(self.bounding_box)
    }

    pub open spec fn distance_spec(self, p: Vec3i) -> int {
        frustum_distance(self.a, self.b, self.ra as int, self.rb as int, p)
    }

    pub fn new(a: Vec3i, b: Vec3i, ra: i64, rb: i64) -> (r: FrustumCone)
        requires
            in_range(a),
            in_range(b),
            radius_ok(ra as int),
            radius_ok(rb as int),
        ensures
            r.wf(),
            r.a == a,
            r.b == b,
            r.ra == ra,
            r.rb == rb,
    {
        let bounding_box = aabb_frustum_cone(a, b, ra, rb);
        FrustumCone { a, b, ra, rb, bounding_box }
    }

    pub fn distance(&self, p: Vec3i) -> (r: i64)
        requires
            self.wf(),
            in_range(p),
        ensures
            r == self.distance_spec(p),
            abs(r as int) <= 0x0800_0000_0000_0000,
    {
        sd_frustum_cone(p, self.a, self.b, self.ra, self.rb)
    }

    pub fn inside(&self, p: Vec3i) -> (r: bool)
        requires
            self.wf(),
            in_range(p),
        ensures
            r == (self.bounding_box.contains_spec(p) && self.distance_spec(p) < 0),
    {
        self.bounding_box.contains(p) && self.distance(p) < 0
    }

    pub fn bounding_box(&self) -> (r: Aabb)
        ensures
            r == self.bounding_box,
    {
        self.bounding_box
    }

    /// This frustum as a general shape.
    pub fn into(self) -> (r: DynSDF)
        ensures
            r == DynSDF::FrustumCone(self),
    {
        DynSDF::FrustumCone(self)
    }
}

fn half_width_exec(r: i64, upi: i64, u2: i64) -> (h: i64)
    requires
        0 <= r <= 0x1000,
        abs(upi as int) <= 0x2000,
        upi * upi <= u2,
        1 <= u2 <= 0x1000_0000,
    ensures
        h == half_width(r as int, upi as int, u2 as int),
        1 <= h <= r + 1,
{
    proof {
        lemma_mul_bound(upi as int, upi as int, 0x2000, 0x2000);
        lemma_mul_bound(r as int, r as int, 0x1000, 0x1000);
        assert(r * r >= 0 && upi * upi >= 0) by (nonlinear_arith);
        lemma_mul_bound((r * r) as int, (u2 - upi * upi) as int, 0x100_0000, 0x1000_0000);
        assert((r * r) * (u2 - upi * upi) >= 0) by (nonlinear_arith)
            requires
                r * r >= 0,
                u2 - upi * upi >= 0,
        ;
        assert((r * r) * (u2 - upi * upi) <= (r * r) * u2) by (nonlinear_arith)
            requires
                r * r >= 0,
                upi * upi >= 0,
        ;
        lemma_div_bound(((r * r) * (u2 - upi * upi)) as int, u2 as int, (r * r) as int);
    }
    let q = (r * r * (u2 - upi * upi)) / u2;
    let s = floor_sqrt_exec(q as u128);
    proof {
        lemma_floor_sqrt_monotone(q as int, (r * r) as int);
        assert(r * r < (r + 1) * (r + 1)) by (nonlinear_arith)
            requires r >= 0;
        lemma_floor_sqrt_unique((r * r) as int, r as int);
    }
    s as i64 + 1
}

/// The frustum's box; see `frustum_box`.
pub fn aabb_frustum_cone(a: Vec3i, b: Vec3i, ra: i64, rb: i64) -> (r: Aabb)
    requires
        in_range(a),
        in_range(b),
        radius_ok(ra as int),
        radius_ok(rb as int),
    ensures
        r == frustum_box(a, b, ra as int, rb as int),
        box_ok(r),
{
    reveal(frustum_box);
    let upx = a.x - b.x;
    let upy = a.y - b.y;
    let upz = a.z - b.z;
    let ghost m13: int = 0x2000;
    proof {
        lemma_mul_bound(upx as int, upx as int, m13, m13);
        lemma_mul_bound(upy as int, upy as int, m13, m13);
        lemma_mul_bound(upz as int, upz as int, m13, m13);
        assert(upx * upx >= 0 && upy * upy >= 0 && upz * upz >= 0) by (nonlinear_arith);
    }
    let u2 = upx * upx + upy * upy + upz * upz;
    let aa = if ra < 0 { -ra } else { ra };
    let ab = if rb < 0 { -rb } else { rb };
    let r = if aa > ab { aa } else { ab };
    if u2 == 0 {
        return Aabb::new(a.sub_scalar(r), a.add_scalar(r));
    }
    let hx = half_width_exec(r, upx, u2);
    let hy = half_width_exec(r, upy, u2);
    let hz = half_width_exec(r, upz, u2);
    let lo = minimum(a, b);
    let hi = maximum(a, b);
    Aabb::new(
        Vec3::new(lo.x - hx, lo.y - hy, lo.z - hz),
        Vec3::new(hi.x + hx, hi.y + hy, hi.z + hz),
    )
}

/// Distance from `p` to the frustum `(a, ra)`–`(b, rb)`; see `frustum_distance`.
pub fn sd_frustum_cone(p: Vec3i, a: Vec3i, b: Vec3i, ra: i64, rb: i64) -> (r: i64)
    requires
        in_range(p),
        in_range(a),
        in_range(b),
        radius_ok(ra as int),
        radius_ok(rb as int),
    ensures
        r == frustum_distance(a, b, ra as int, rb as int, p),
        abs(r as int) <= 0x0800_0000_0000_0000,
{
    let s: i128 = FRAC_ONE as i128;
    let bax = (b.x - a.x) as i128;
    let bay = (b.y - a.y) as i128;
    let baz = (b.z - a.z) as i128;
    let pax = (p.x - a.x) as i128;
    let pay = (p.y - a.y) as i128;
    let paz = (p.z - a.z) as i128;
    let ra = ra as i128;
    let rb = rb as i128;
    let ghost m13: int = 0x2000;
    let ghost m28: int = 0x1000_0000;
    proof {
        lemma_mul_bound(bax as int, bax as int, m13, m13);
        lemma_mul_bound(bay as int, bay as int, m13, m13);
        lemma_mul_bound(baz as int, baz as int, m13, m13);
        lemma_mul_bound(pax as int, pax as int, m13, m13);
        lemma_mul_bound(pay as int, pay as int, m13, m13);
        lemma_mul_bound(paz as int, paz as int, m13, m13);
        lemma_mul_bound(pax as int, bax as int, m13, m13);
        lemma_mul_bound(pay as int, bay as int, m13, m13);
        lemma_mul_bound(paz as int, baz as int, m13, m13);
        assert(bax * bax >= 0 && bay * bay >= 0 && baz * baz >= 0) by (nonlinear_arith);
        assert(pax * pax >= 0 && pay * pay >= 0 && paz * paz >= 0) by (nonlinear_arith);
    }
    let baba = bax * bax + bay * bay + baz * baz;
    let papa = pax * pax + pay * pay + paz * paz;
    if baba == 0 {
        let q = floor_sqrt_exec(papa as u128);
        proof {
            lemma_floor_sqrt(papa as int);
        }
        return (q as i128 - ra) as i64;
    }
    let t = pax * bax + pay * bay + paz * baz;
    proof {
        lemma_mul_bound(papa as int, baba as int, m28, m28);
        lemma_mul_bound(t as int, t as int, m28, m28);
        assert(t * t >= 0) by (nonlinear_arith);
    }
    let x = frustum_radial_exec(papa, baba, t);
    proof {
        lemma_mul_bound(t as int, s as int, m28, 0x1_0000);
        lemma_div_abs_le((t * s) as int, baba as int);
    }
    let paba = floor_div_i128(t * s, baba);
    frustum_tail_exec(x, paba, t, baba, ra, rb)
}

fn frustum_radial_exec(papa: i128, baba: i128, t: i128) -> (x: i128)
    requires
        0 <= papa <= 0x1000_0000,
        1 <= baba <= 0x1000_0000,
        abs(t as int) <= 0x1000_0000,
    ensures
        x == frustum_radial(papa as int, baba as int, t as int),
        0 <= x <= 0x1000_0000_0000,
{
    let s: i128 = FRAC_ONE as i128;
    let ghost m28: int = 0x1000_0000;
    proof {
        lemma_mul_bound(papa as int, baba as int, m28, m28);
        lemma_mul_bound(t as int, t as int, m28, m28);
        assert(t * t >= 0) by (nonlinear_arith);
    }
    let e = papa * baba - t * t;
    let e = if e < 0 { 0 } else { e };
    proof {
        lemma_mul_bound(e as int, s as int, 0x100_0000_0000_0000, 0x1_0000);
        lemma_mul_bound((e * s) as int, s as int, 0x100_0000_0000_0000_0000, 0x1_0000);
        assert((e * s) * s >= 0) by (nonlinear_arith)
            requires
                e >= 0,
                s > 0,
        ;
        lemma_div_abs_le((e * s * s) as int, baba as int);
    }
    let xq = (e * s * s) / baba;
    let x0 = floor_sqrt_exec(xq as u128);
    proof {
        lemma_floor_sqrt(xq as int);
        assert(x0 <= 0x1000_0000_0000) by (nonlinear_arith)
            requires
                x0 * x0 <= xq,
                xq <= 0x100_0000_0000_0000_0000_0000,
                x0 >= 0,
        ;
    }
    x0 as i128
}

#[verifier::rlimit(40)]
fn frustum_tail_exec(x: i128, paba: i128, t: i128, baba: i128, ra: i128, rb: i128) -> (r: i64)
    requires
        0 <= x <= 0x1000_0000_0000,
        abs(paba as int) <= 0x1000_0000_0000,
        abs(t as int) <= 0x1000_0000,
        1 <= baba <= 0x1000_0000,
        radius_ok(ra as int),
        radius_ok(rb as int),
    ensures
        r == frustum_tail(x as int, paba as int, t as int, baba as int, ra as int, rb as int),
        abs(r as int) <= 0x0800_0000_0000_0000,
{
    let s: i128 = FRAC_ONE as i128;
    let ghost m13: int = 0x2000;
    let ghost m28: int = 0x1000_0000;
    let half = s / 2;
    let rcap = if paba < half { ra } else { rb };
    let cax0 = x - rcap * s;
    let cax = if cax0 < 0 { 0 } else { cax0 };
    let cay0 = paba - half;
    let cay = (if cay0 < 0 { -cay0 } else { cay0 }) - half;
    let rba = rb - ra;
    proof {
        lemma_mul_bound(rba as int, rba as int, m13, m13);
        assert(rba * rba >= 0) by (nonlinear_arith);
        lemma_mul_bound(rba as int, (x - ra * s) as int, m13, 0x2000_0000_0000);
        lemma_mul_bound(t as int, s as int, m28, 0x1_0000);
    }
    let k = rba * rba + baba;
    let f0 = floor_div_i128(rba * (x - ra * s) + t * s, k);
    let f = if f0 < 0 { 0 } else if f0 > s { s } else { f0 };
    proof {
        lemma_mul_bound(f as int, rba as int, 0x1_0000, m13);
    }
    let cbx = x - ra * s - f * rba;
    let cby = paba - f;
    let sgn: i128 = if cbx < 0 && cay < 0 { -1 } else { 1 };
    let ghost m45: int = 0x2000_0000_0000;
    proof {
        lemma_mul_bound(cax as int, cax as int, m45, m45);
        lemma_mul_bound(cay as int, cay as int, m45, m45);
        lemma_mul_bound(cbx as int, cbx as int, m45, m45);
        lemma_mul_bound(cby as int, cby as int, m45, m45);
        assert(cax * cax >= 0 && cay * cay >= 0 && cbx * cbx >= 0 && cby * cby >= 0)
            by (nonlinear_arith);
        lemma_mul_bound((cay * cay) as int, baba as int, 0x400_0000_0000_0000_0000_0000, m28);
        lemma_mul_bound((cby * cby) as int, baba as int, 0x400_0000_0000_0000_0000_0000, m28);
        assert((cay * cay) * baba >= 0 && (cby * cby) * baba >= 0) by (nonlinear_arith)
            requires
                cay * cay >= 0,
                cby * cby >= 0,
                baba >= 0,
        ;
    }
    let d1 = cax * cax + cay * cay * baba;
    let d2 = cbx * cbx + cby * cby * baba;
    let m = if d1 < d2 { d1 } else { d2 };
    let q = floor_sqrt_exec(m as u128);
    proof {
        lemma_floor_sqrt(m as int);
        assert(q <= 0x1000_0000_0000_0000) by (nonlinear_arith)
            requires
                q * q <= m,
                m <= 0x80_0000_0000_0000_0000_0000_0000_0000,
                q >= 0,
        ;
        lemma_div_bound((sgn * q as i128) as int, s as int, 0x1000_0000_0000);
    }
    let res = floor_div_i128(sgn * q as i128, s);
    res as i64
}

pub proof fn lemma_square_of_sum(x: int, y: int)
    ensures
        (x + y) * (x + y) == x * x + 2 * (x * y) + y * y,
        (x - y) * (x - y) == x * x - 2 * (x * y) + y * y,
{
    assert((x + y) * (x + y) == x * x + 2 * (x * y) + y * y) by (nonlinear_arith);
    assert((x - y) * (x - y) == x * x - 2 * (x * y) + y * y) by (nonlinear_arith);
}

proof fn lemma_regroup(a: int, b: int, c: int, d: int)
    ensures
        (a * b) * (c * d) == (a * c) * (b * d),
{
    assert((a * b) * (c * d) == (a * c) * (b * d)) by (nonlinear_arith);
}

pub proof fn lemma_distribute3(k: int, x: int, y: int, z: int)
    ensures
        k * x + k * y + k * z == k * (x + y + z),
        k * (x + y) == k * x + k * y,
{
    assert(k * x + k * y + k * z == k * (x + y + z)) by (nonlinear_arith);
    assert(k * (x + y) == k * x + k * y) by (nonlinear_arith);
}

/// Two-dimensional Cauchy-Schwarz.
proof fn lemma_cauchy_schwarz2(a: int, b: int, c: int, d: int)
    ensures
        (a * c + b * d) * (a * c + b * d) <= (a * a + b * b) * (c * c + d * d),
{
    lemma_square_of_sum(a * c, b * d);
    lemma_square_of_sum(a * d, b * c);
    lemma_regroup(a, c, a, c);
    lemma_regroup(b, d, b, d);
    lemma_regroup(a, d, a, d);
    lemma_regroup(b, c, b, c);
    lemma_regroup(a, c, b, d);
    lemma_regroup(a, d, b, c);
    assert((a * b) * (c * d) == (a * b) * (d * c)) by (nonlinear_arith);
    let aa = a * a;
    let bb = b * b;
    lemma_distribute3(aa, c * c, d * d, 0);
    lemma_distribute3(bb, c * c, d * d, 0);
    assert((aa + bb) * (c * c + d * d) == aa * (c * c + d * d) + bb * (c * c + d * d))
        by (nonlinear_arith);
    assert((a * d - b * c) * (a * d - b * c) >= 0) by (nonlinear_arith);
}

/// A vector `q` orthogonal to `d` has `q1^2 |d|^2 <= |q|^2 (d2^2 + d3^2)`.
proof fn lemma_orthogonal_component(q1: int, q2: int, q3: int, d1: int, d2: int, d3: int)
    requires
        q1 * d1 + q2 * d2 + q3 * d3 == 0,
    ensures
        q1 * q1 * (d1 * d1 + d2 * d2 + d3 * d3) <= (q1 * q1 + q2 * q2 + q3 * q3) * (d2 * d2
            + d3 * d3),
{
    let w = q2 * d2 + q3 * d3;
    let v = q1 * d1;
    assert(v == -w);
    assert(v * v == w * w) by (nonlinear_arith)
        requires
            v == -w,
    ;
    lemma_cauchy_schwarz2(q2, q3, d2, d3);
    lemma_regroup(q1, d1, q1, d1);
    let qq = q1 * q1;
    let e23 = d2 * d2 + d3 * d3;
    lemma_distribute3(qq, d1 * d1, e23, 0);
    assert(qq * (d1 * d1 + d2 * d2 + d3 * d3) == qq * (d1 * d1 + e23));
    assert((qq + (q2 * q2 + q3 * q3)) * e23 == qq * e23 + (q2 * q2 + q3 * q3) * e23)
        by (nonlinear_arith);
    assert(q1 * q1 + q2 * q2 + q3 * q3 == qq + (q2 * q2 + q3 * q3));
}

/// One component of `D q - t d`: its square and its product with `d`.
proof fn lemma_perp_component(q: int, d: int, t: int, dd: int)
    ensures
        (dd * q - t * d) * (dd * q - t * d) == (dd * dd) * (q * q) - 2 * ((dd * t) * (q * d)) + (
        t * t) * (d * d),
        (dd * q - t * d) * d == dd * (q * d) - t * (d * d),
{
    lemma_square_of_sum(dd * q, t * d);
    lemma_regroup(dd, q, dd, q);
    lemma_regroup(dd, q, t, d);
    lemma_regroup(t, d, t, d);
    assert((dd * q - t * d) * d == dd * (q * d) - t * (d * d)) by (nonlinear_arith);
}

/// With `Q = D q - t d`, `D = |d|^2`, `t = q . d`: `|Q|^2 = D (D |q|^2 - t^2)` and
/// `Q . d = 0`.
pub proof fn lemma_lagrange(q1: int, q2: int, q3: int, d1: int, d2: int, d3: int)
    ensures
        ({
            let dd = d1 * d1 + d2 * d2 + d3 * d3;
            let t = q1 * d1 + q2 * d2 + q3 * d3;
            let pp = q1 * q1 + q2 * q2 + q3 * q3;
            let x1 = dd * q1 - t * d1;
            let x2 = dd * q2 - t * d2;
            let x3 = dd * q3 - t * d3;
            &&& x1 * x1 + x2 * x2 + x3 * x3 == dd * (dd * pp - t * t)
            &&& x1 * d1 + x2 * d2 + x3 * d3 == 0
        }),
{
    let dd = d1 * d1 + d2 * d2 + d3 * d3;
    let t = q1 * d1 + q2 * d2 + q3 * d3;
    let pp = q1 * q1 + q2 * q2 + q3 * q3;
    lemma_perp_component(q1, d1, t, dd);
    lemma_perp_component(q2, d2, t, dd);
    lemma_perp_component(q3, d3, t, dd);
    lemma_distribute3(dd * dd, q1 * q1, q2 * q2, q3 * q3);
    lemma_distribute3(dd * t, q1 * d1, q2 * d2, q3 * d3);
    lemma_distribute3(t * t, d1 * d1, d2 * d2, d3 * d3);
    lemma_distribute3(dd, q1 * d1, q2 * d2, q3 * d3);
    lemma_distribute3(t, d1 * d1, d2 * d2, d3 * d3);
    assert((dd * dd) * pp - 2 * ((dd * t) * t) + (t * t) * dd == dd * (dd * pp - t * t))
        by (nonlinear_arith);
    assert(dd * t == t * dd) by (nonlinear_arith);
}

/// Along one axis, a point between the end planes whose offset from the axis is
/// below `r` lies within the box's extent.
proof fn lemma_axis_reach(ai: int, bi: int, pi: int, t: int, dd: int, e: int, r: int, xi: int, xsq: int)
    requires
        1 <= dd,
        0 < t < dd,
        (bi - ai) * (bi - ai) <= dd,
        xi == dd * (pi - ai) - t * (bi - ai),
        xi * xi * dd <= xsq * (dd - (bi - ai) * (bi - ai)),
        xsq == dd * e,
        0 <= e < r * r * dd,
        r >= 0,
    ensures
        min_int(ai, bi) - half_width(r, ai - bi, dd) <= pi <= max_int(ai, bi) + half_width(
            r,
            ai - bi,
            dd,
        ),
        1 <= half_width(r, ai - bi, dd) <= r + 1,
{
    let di = bi - ai;
    let rest = dd - di * di;
    assert((ai - bi) * (ai - bi) == di * di) by (nonlinear_arith)
        requires
            di == bi - ai,
    ;
    let n = r * r * rest;
    assert(rest >= 0);
    assert(n >= 0) by (nonlinear_arith)
        requires
            rest >= 0,
            n == r * r * rest,
    ;
    assert(xi * xi <= e * rest) by (nonlinear_arith)
        requires
            xi * xi * dd <= xsq * rest,
            xsq == dd * e,
            dd >= 1,
    ;
    assert(e * rest <= r * r * dd * rest) by (nonlinear_arith)
        requires
            e < r * r * dd,
            rest >= 0,
    ;
    let k = n / dd;
    assert(0 <= k) by (nonlinear_arith)
        requires
            n >= 0,
            dd >= 1,
            k == n / dd,
    ;
    lemma_floor_sqrt(k);
    let h = floor_sqrt(k) + 1;
    assert(half_width(r, ai - bi, dd) == h);
    assert(r * r >= 0) by (nonlinear_arith);
    assert(k <= r * r) by (nonlinear_arith)
        requires
            k == n / dd,
            n == r * r * rest,
            rest <= dd,
            r * r >= 0,
            dd >= 1,
    ;
    lemma_floor_sqrt_monotone(k, r * r);
    assert(r * r < (r + 1) * (r + 1)) by (nonlinear_arith)
        requires
            r >= 0,
    ;
    lemma_floor_sqrt_unique(r * r, r);
    assert(n < h * h * dd) by (nonlinear_arith)
        requires
            k == n / dd,
            dd >= 1,
            k < h * h,
    ;
    assert(xi * xi < (h * dd) * (h * dd)) by (nonlinear_arith)
        requires
            xi * xi <= r * r * dd * rest,
            n == r * r * rest,
            n < h * h * dd,
            dd >= 1,
    ;
    assert(-(h * dd) < xi < h * dd) by (nonlinear_arith)
        requires
            xi * xi < (h * dd) * (h * dd),
            h >= 1,
            dd >= 1,
    ;
    assert(dd * pi == dd * ai + t * di + xi) by (nonlinear_arith)
        requires
            xi == dd * (pi - ai) - t * di,
    ;
    assert(dd * min_int(ai, bi) <= dd * ai + t * di <= dd * max_int(ai, bi)) by (nonlinear_arith)
        requires
            0 < t < dd,
            di == bi - ai,
    ;
    assert(min_int(ai, bi) - h <= pi <= max_int(ai, bi) + h) by (nonlinear_arith)
        requires
            dd * pi == dd * ai + t * di + xi,
            dd * min_int(ai, bi) <= dd * ai + t * di <= dd * max_int(ai, bi),
            -(h * dd) < xi < h * dd,
            dd >= 1,
    ;
}

/// A point where the frustum's distance is negative lies in the frustum's box.
pub proof fn lemma_frustum_negative_in_box(a: Vec3i, b: Vec3i, ra: int, rb: int, p: Vec3i)
    requires
        in_range(a),
        in_range(b),
        in_range(p),
        radius_ok(ra),
        radius_ok(rb),
        frustum_distance(a, b, ra, rb, p) < 0,
    ensures
        frustum_box(a, b, ra, rb).contains_spec(p),
{
    reveal(frustum_box);
    let d1 = b.x - a.x;
    let d2 = b.y - a.y;
    let d3 = b.z - a.z;
    let q1 = p.x - a.x;
    let q2 = p.y - a.y;
    let q3 = p.z - a.z;
    let dd = d1 * d1 + d2 * d2 + d3 * d3;
    let pp = q1 * q1 + q2 * q2 + q3 * q3;
    let r = frustum_radius(ra, rb);
    assert(d1 * d1 >= 0 && d2 * d2 >= 0 && d3 * d3 >= 0 && q1 * q1 >= 0 && q2 * q2 >= 0 && q3 * q3
        >= 0) by (nonlinear_arith);
    assert((a.x - b.x) * (a.x - b.x) + (a.y - b.y) * (a.y - b.y) + (a.z - b.z) * (a.z - b.z) == dd)
        by (nonlinear_arith)
        requires
            d1 == b.x - a.x,
            d2 == b.y - a.y,
            d3 == b.z - a.z,
            dd == d1 * d1 + d2 * d2 + d3 * d3,
    ;
    if dd == 0 {
        assert(d1 == 0 && d2 == 0 && d3 == 0) by (nonlinear_arith)
            requires
                dd == d1 * d1 + d2 * d2 + d3 * d3,
                dd == 0,
        ;
        assert(floor_sqrt(pp) < ra);
        crate::sdf::lemma_axis_within_norm(q1, pp);
        crate::sdf::lemma_axis_within_norm(q2, pp);
        crate::sdf::lemma_axis_within_norm(q3, pp);
    } else {
        let s = FRAC_ONE as int;
        let t = q1 * d1 + q2 * d2 + q3 * d3;
        let e = pp * dd - t * t;
        let x = frustum_radial(pp, dd, t);
        let paba = frustum_axial(dd, t);
        let cax = max_int(0, x - (if paba < s / 2 { ra } else { rb }) * s);
        let cay = abs(paba - s / 2) - s / 2;
        let rba = rb - ra;
        let k = rba * rba + dd;
        let f0 = (rba * (x - ra * s) + t * s) / k;
        let f = if f0 < 0 {
            0
        } else if f0 > s {
            s
        } else {
            f0
        };
        let cbx = x - ra * s - f * rba;
        let cby = paba - f;
        let sgn = if cbx < 0 && cay < 0 {
            -1int
        } else {
            1int
        };
        let m = min_int(cax * cax + cay * cay * dd, cbx * cbx + cby * cby * dd);
        assert(frustum_tail(x, paba, t, dd, ra, rb) == (sgn * floor_sqrt(m)) / s);
        assert(m >= 0) by (nonlinear_arith)
            requires
                m == min_int(cax * cax + cay * cay * dd, cbx * cbx + cby * cby * dd),
                dd >= 0,
        ;
        lemma_floor_sqrt(m);
        if sgn == 1 {
            assert((sgn * floor_sqrt(m)) / s >= 0) by (nonlinear_arith)
                requires
                    sgn == 1,
                    floor_sqrt(m) >= 0,
                    s > 0,
            ;
        }
        assert(cbx < 0 && cay < 0);
        // between the end planes
        assert(0 < paba < s);
        assert(0 < t < dd) by (nonlinear_arith)
            requires
                paba == (t * s) / dd,
                0 < paba < s,
                dd >= 1,
                s > 0,
        ;
        // within the larger radius of the axis
        assert(0 <= f <= s);
        assert(ra * s + f * rba <= r * s) by (nonlinear_arith)
            requires
                0 <= f <= s,
                rba == rb - ra,
                ra <= r,
                rb <= r,
        ;
        let ep = max_int(0, e);
        let y = (ep * s * s) / dd;
        assert(ep * s * s >= 0) by (nonlinear_arith)
            requires
                ep >= 0,
        ;
        assert(y >= 0) by (nonlinear_arith)
            requires
                y == (ep * s * s) / dd,
                ep * s * s >= 0,
                dd >= 1,
        ;
        lemma_floor_sqrt(y);
        assert(x == floor_sqrt(y));
        assert(ep < r * r * dd) by (nonlinear_arith)
            requires
                y == (ep * s * s) / dd,
                y < (x + 1) * (x + 1),
                0 <= x,
                x + 1 <= r * s,
                dd >= 1,
                s > 0,
        ;
        lemma_lagrange(q1, q2, q3, d1, d2, d3);
        let x1 = dd * q1 - t * d1;
        let x2 = dd * q2 - t * d2;
        let x3 = dd * q3 - t * d3;
        let xsq = x1 * x1 + x2 * x2 + x3 * x3;
        assert(x1 * x1 >= 0 && x2 * x2 >= 0 && x3 * x3 >= 0) by (nonlinear_arith);
        assert(e >= 0) by (nonlinear_arith)
            requires
                xsq == dd * e,
                xsq >= 0,
                dd >= 1,
        ;
        assert(r >= 0);
        lemma_orthogonal_component(x1, x2, x3, d1, d2, d3);
        lemma_orthogonal_component(x2, x3, x1, d2, d3, d1);
        lemma_orthogonal_component(x3, x1, x2, d3, d1, d2);
        assert(xsq * (d2 * d2 + d3 * d3) == xsq * (dd - d1 * d1));
        assert(xsq * (d3 * d3 + d1 * d1) == xsq * (dd - d2 * d2));
        assert(xsq * (d1 * d1 + d2 * d2) == xsq * (dd - d3 * d3));
        assert(x2 * x2 + x3 * x3 + x1 * x1 == xsq);
        assert(x3 * x3 + x1 * x1 + x2 * x2 == xsq);
        lemma_axis_reach(a.x as int, b.x as int, p.x as int, t, dd, e, r, x1, xsq);
        lemma_axis_reach(a.y as int, b.y as int, p.y as int, t, dd, e, r, x2, xsq);
        lemma_axis_reach(a.z as int, b.z as int, p.z as int, t, dd, e, r, x3, xsq);
    }
}

} // verus!
