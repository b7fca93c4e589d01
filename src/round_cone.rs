use vstd::prelude::*;

use crate::sdf::{clamp, in_range, radius_ok, sphere_box, Aabb, DynSDF, SDFHitInfo};
use crate::vec3::{
    abs, floor_div_i128, floor_sqrt, floor_sqrt_exec, lemma_div_abs_le, lemma_floor_sqrt,
    lemma_mul_bound, max_int, Vec3i, FRAC_ONE,
};

verus! {

/// Sign with the convention that zero counts as positive.
pub open spec fn sign(v: int) -> int {
    if v < 0 {
        -1
    } else {
        1
    }
}

/// The distance to a round cone: the segment from `a` to `b` swept by a ball whose
/// radius goes from `ra` to `rb`. With `ba = b - a`, `l2 = |ba|^2`, `pa = p - a`,
/// `y = pa . ba` and `z = y - l2`, the cases are: near the `b` cap, near the `a`
/// cap, and the lateral surface, told apart by comparing `a2 * z2` and `a2 * y2`
/// with `k` as in the single square root formulation. Square roots and divisions
/// round down. When `l2 <= (ra - rb)^2` one end ball holds the other and the solid
/// is the larger ball.
pub open spec fn round_cone_distance(a: Vec3i, b: Vec3i, ra: int, rb: int, p: Vec3i) -> int {
    let bax = b.x - a.x;
    let bay = b.y - a.y;
    let baz = b.z - a.z;
    let pax = p.x - a.x;
    let pay = p.y - a.y;
    let paz = p.z - a.z;
    let l2 = bax * bax + bay * bay + baz * baz;
    let rr = ra - rb;
    if l2 <= rr * rr {
        if ra >= rb {
            floor_sqrt(pax * pax + pay * pay + paz * paz) - ra
        } else {
            floor_sqrt(
                (p.x - b.x) * (p.x - b.x) + (p.y - b.y) * (p.y - b.y) + (p.z - b.z) * (p.z - b.z),
            ) - rb
        }
    } else {
        let a2 = l2 - rr * rr;
        let y = pax * bax + pay * bay + paz * baz;
        let z = y - l2;
        let qx = pax * l2 - bax * y;
        let qy = pay * l2 - bay * y;
        let qz = paz * l2 - baz * y;
        let x2 = qx * qx + qy * qy + qz * qz;
        let y2 = y * y * l2;
        let z2 = z * z * l2;
        let k = sign(rr) * rr * rr * x2;
        if sign(z) * a2 * z2 > k {
            floor_sqrt(x2 + z2) / l2 - rb
        } else if sign(y) * a2 * y2 < k {
            floor_sqrt(x2 + y2) / l2 - ra
        } else {
            (floor_sqrt(max_int(0, (x2 * a2) / l2)) + y * rr) / l2 - ra
        }
    }
}

/// A capsule-like solid between two balls.
#[derive(Clone, Copy, Debug, PartialEq, Eq, Structural)]
pub struct RoundCone {
    pub a: Vec3i,
    pub b: Vec3i,
    pub ra: i64,
    pub rb: i64,
    pub bounding_box: Aabb,
}

impl RoundCone {
    pub open spec fn wf(self) -> bool {
        in_range(self.a) && in_range(self.b) && radius_ok(self.ra as int) && radius_ok(
            self.rb as int,
        ) && self.bounding_box == sphere_box(self.a, self.ra as int).union_spec(
            sphere_box(self.b, self.rb as int),
        )
    }

    pub open spec fn distance_spec(self, p: Vec3i) -> int {
        round_cone_distance(self.a, self.b, self.ra as int, self.rb as int, p)
    }

    /// At a point with distance `d <= 0`: `u` is `d` clamped to `[0, 1]`, `v` the
    /// point's position along the segment from `a` to `b` clamped to `[0, 1]`.
    pub open spec fn hit_spec(self, p: Vec3i) -> Option<SDFHitInfo> {
        let d = self.distance_spec(p);
        if d <= 0 {
            Some(
                SDFHitInfo {
                    distance: d as i64,
                    u: clamp(d * FRAC_ONE, 0, FRAC_ONE as int) as i64,
                    v: clamp(
                        crate::solid_geometry::proj_p_to_line_spec(p, self.a, self.b),
                        0,
                        FRAC_ONE as int,
                    ) as i64,
                    w: 0,
                },
            )
        } else {
            None
        }
    }

    /// The bounding box is that of the two end balls together.
    pub fn new(a: Vec3i, b: Vec3i, ra: i64, rb: i64) -> (r: RoundCone)
        requires
            in_range(a),
            in_range(b),
            radius_ok(ra as int),
            radius_ok(rb as int),
        ensures
            r.wf(),
            r.a == a,
            r.b == b,
            r.ra == ra,
            r.rb == rb,
    {
        let box_a = Aabb::new(a.sub_scalar(ra), a.add_scalar(ra));
        let box_b = Aabb::new(b.sub_scalar(rb), b.add_scalar(rb));
        RoundCone { a, b, ra, rb, bounding_box: box_a.union(&box_b) }
    }

    pub fn distance(&self, p: Vec3i) -> (r: i64)
        requires
            self.wf(),
            in_range(p),
        ensures
            r == self.distance_spec(p),
            abs(r as int) <= 0x0800_0000_0000_0000,
    {
        sd_round_cone(p, self.a, self.b, self.ra, self.rb)
    }

    pub fn inside(&self, p: Vec3i) -> (r: bool)
        requires
            self.wf(),
            in_range(p),
        ensures
            r == (self.bounding_box.contains_spec(p) && self.distance_spec(p) < 0),
    {
        self.bounding_box.contains(p) && self.distance(p) < 0
    }

    pub fn bounding_box(&self) -> (r: Aabb)
        ensures
            r == self.bounding_box,
    {
        self.bounding_box
    }

    pub fn hit(&self, p: Vec3i) -> (r: Option<SDFHitInfo>)
        requires
            self.wf(),
            in_range(p),
        ensures
            r == self.hit_spec(p),
    {
        let d = self.distance(p);
        if d <= 0 {
            assert(d * FRAC_ONE <= 0) by (nonlinear_arith)
                requires d <= 0;
            let v = crate::solid_geometry::proj_p_to_line(p, self.a, self.b);
            let v = if v < 0 {
                0
            } else if v > FRAC_ONE {
                FRAC_ONE
            } else {
                v
            };
            Some(SDFHitInfo { distance: d, u: 0, v, w: 0 })
        } else {
            None
        }
    }

    /// This round cone as a general shape.
    pub fn into(self) -> (r: DynSDF)
        ensures
            r == DynSDF::RoundCone(self),
    {
        DynSDF::RoundCone(self)
    }
}

/// Distance from `p` to the round cone `(a, ra)`–`(b, rb)`.
pub fn sd_round_cone(p: Vec3i, a: Vec3i, b: Vec3i, ra: i64, rb: i64) -> (r: i64)
    requires
        in_range(p),
        in_range(a),
        in_range(b),
        radius_ok(ra as int),
        radius_ok(rb as int),
    ensures
        r == round_cone_distance(a, b, ra as int, rb as int, p),
        abs(r as int) <= 0x0800_0000_0000_0000,
{
    let bax = (b.x - a.x) as i128;
    let bay = (b.y - a.y) as i128;
    let baz = (b.z - a.z) as i128;
    let pax = (p.x - a.x) as i128;
    let pay = (p.y - a.y) as i128;
    let paz = (p.z - a.z) as i128;
    let ra = ra as i128;
    let rb = rb as i128;
    let ghost m13: int = 0x2000;
    proof {
        lemma_mul_bound(bax as int, bax as int, m13, m13);
        lemma_mul_bound(bay as int, bay as int, m13, m13);
        lemma_mul_bound(baz as int, baz as int, m13, m13);
        lemma_mul_bound(pax as int, pax as int, m13, m13);
        lemma_mul_bound(pay as int, pay as int, m13, m13);
        lemma_mul_bound(paz as int, paz as int, m13, m13);
        lemma_mul_bound(pax as int, bax as int, m13, m13);
        lemma_mul_bound(pay as int, bay as int, m13, m13);
        lemma_mul_bound(paz as int, baz as int, m13, m13);
        assert(bax * bax >= 0 && bay * bay >= 0 && baz * baz >= 0) by (nonlinear_arith);
        assert(pax * pax >= 0 && pay * pay >= 0 && paz * paz >= 0) by (nonlinear_arith);
    }
    let l2 = bax * bax + bay * bay + baz * baz;
    let rr = ra - rb;
    proof {
        lemma_mul_bound(rr as int, rr as int, m13, m13);
        assert(rr * rr >= 0) by (nonlinear_arith);
    }
    if l2 <= rr * rr {
        if ra >= rb {
            let n = pax * pax + pay * pay + paz * paz;
            let s = floor_sqrt_exec(n as u128);
            proof {
                lemma_floor_sqrt(n as int);
            }
            return (s as i128 - ra) as i64;
        } else {
            let pbx = (p.x - b.x) as i128;
            let pby = (p.y - b.y) as i128;
            let pbz = (p.z - b.z) as i128;
            proof {
                lemma_mul_bound(pbx as int, pbx as int, m13, m13);
                lemma_mul_bound(pby as int, pby as int, m13, m13);
                lemma_mul_bound(pbz as int, pbz as int, m13, m13);
                assert(pbx * pbx >= 0 && pby * pby >= 0 && pbz * pbz >= 0) by (nonlinear_arith);
            }
            let n = pbx * pbx + pby * pby + pbz * pbz;
            let s = floor_sqrt_exec(n as u128);
            proof {
                lemma_floor_sqrt(n as int);
            }
            return (s as i128 - rb) as i64;
        }
    }
    let a2 = l2 - rr * rr;
    let y = pax * bax + pay * bay + paz * baz;
    let z = y - l2;
    let ghost m28: int = 0x1000_0000;
    let ghost m29: int = 0x2000_0000;
    let ghost m42: int = 0x400_0000_0000;
    proof {
        lemma_mul_bound(pax as int, l2 as int, m13, m28);
        lemma_mul_bound(pay as int, l2 as int, m13, m28);
        lemma_mul_bound(paz as int, l2 as int, m13, m28);
        lemma_mul_bound(bax as int, y as int, m13, m28);
        lemma_mul_bound(bay as int, y as int, m13, m28);
        lemma_mul_bound(baz as int, y as int, m13, m28);
    }
    let qx = pax * l2 - bax * y;
    let qy = pay * l2 - bay * y;
    let qz = paz * l2 - baz * y;
    proof {
        lemma_mul_bound(qx as int, qx as int, m42, m42);
        lemma_mul_bound(qy as int, qy as int, m42, m42);
        lemma_mul_bound(qz as int, qz as int, m42, m42);
        assert(qx * qx >= 0 && qy * qy >= 0 && qz * qz >= 0) by (nonlinear_arith);
        lemma_mul_bound(y as int, y as int, m28, m28);
        lemma_mul_bound(z as int, z as int, m29, m29);
        assert(y * y >= 0 && z * z >= 0) by (nonlinear_arith);
    }
    let x2 = qx * qx + qy * qy + qz * qz;
    let ghost m58: int = 0x400_0000_0000_0000;
    let ghost m86: int = 0x40_0000_0000_0000_0000_0000;
    proof {
        lemma_mul_bound((y * y) as int, l2 as int, m58, m28);
        lemma_mul_bound((z * z) as int, l2 as int, m58, m28);
        assert((y * y) * l2 >= 0 && (z * z) * l2 >= 0) by (nonlinear_arith)
            requires
                y * y >= 0,
                z * z >= 0,
                l2 >= 0,
        ;
    }
    let y2 = y * y * l2;
    let z2 = z * z * l2;
    let srr: i128 = if rr < 0 { -1 } else { 1 };
    let sz: i128 = if z < 0 { -1 } else { 1 };
    let sy: i128 = if y < 0 { -1 } else { 1 };
    let ghost m26: int = 0x400_0000;
    proof {
        assert(abs((srr * rr) as int) <= m13) by {
            if rr < 0 {
                assert(srr == -1);
                assert(srr * rr == -rr);
            } else {
                assert(srr == 1);
                assert(srr * rr == rr);
            }
        }
        assert(abs((sz * a2) as int) <= m28 && abs((sy * a2) as int) <= m28) by {
            if z < 0 {
                assert(sz == -1);
                assert(sz * a2 == -a2);
            } else {
                assert(sz == 1);
                assert(sz * a2 == a2);
            }
            if y < 0 {
                assert(sy == -1);
                assert(sy * a2 == -a2);
            } else {
                assert(sy == 1);
                assert(sy * a2 == a2);
            }
        }
        lemma_mul_bound((srr * rr) as int, rr as int, m13, m13);
        lemma_mul_bound((srr * rr * rr) as int, x2 as int, m26, m86);
        lemma_mul_bound((sz * a2) as int, z2 as int, m28, m86);
        lemma_mul_bound((sy * a2) as int, y2 as int, m28, m86);
        lemma_mul_bound(x2 as int, a2 as int, m86, m28);
    }
    let k = srr * rr * rr * x2;
    let res: i128 = if sz * a2 * z2 > k {
        let s = floor_sqrt_exec((x2 + z2) as u128);
        proof {
            lemma_floor_sqrt((x2 + z2) as int);
            assert(s <= 0x1000_0000_0000) by (nonlinear_arith)
                requires
                    s * s <= x2 + z2,
                    x2 + z2 <= 0x100_0000_0000_0000_0000_0000,
                    s >= 0,
            ;
            lemma_div_abs_le(s as int, l2 as int);
        }
        floor_div_i128(s as i128, l2) - rb
    } else if sy * a2 * y2 < k {
        let s = floor_sqrt_exec((x2 + y2) as u128);
        proof {
            lemma_floor_sqrt((x2 + y2) as int);
            assert(s <= 0x1000_0000_0000) by (nonlinear_arith)
                requires
                    s * s <= x2 + y2,
                    x2 + y2 <= 0x100_0000_0000_0000_0000_0000,
                    s >= 0,
            ;
            lemma_div_abs_le(s as int, l2 as int);
        }
        floor_div_i128(s as i128, l2) - ra
    } else {
        let t = floor_div_i128(x2 * a2, l2);
        proof {
            lemma_div_abs_le((x2 * a2) as int, l2 as int);
        }
        let t = if t < 0 { 0 } else { t };
        let s = floor_sqrt_exec(t as u128);
        proof {
            lemma_floor_sqrt(t as int);
            lemma_mul_bound(y as int, rr as int, m28, m13);
            assert(s * s <= t);
            assert(s <= 0x200_0000_0000_0000) by (nonlinear_arith)
                requires
                    s * s <= t,
                    t <= 0x4_0000_0000_0000_0000_0000_0000_0000,
                    s >= 0,
            ;
            lemma_div_abs_le((s + y * rr) as int, l2 as int);
        }
        floor_div_i128(s as i128 + y * rr, l2) - ra
    };
    res as i64
}

/// `p` lies in the lateral branch of the round cone's distance: neither end ball
/// holds the other, and neither cap comparison picks an end.
pub open spec fn round_cone_lateral(a: Vec3i, b: Vec3i, ra: int, rb: int, p: Vec3i) -> bool {
    let bax = b.x - a.x;
    let bay = b.y - a.y;
    let baz = b.z - a.z;
    let pax = p.x - a.x;
    let pay = p.y - a.y;
    let paz = p.z - a.z;
    let l2 = bax * bax + bay * bay + baz * baz;
    let rr = ra - rb;
    if l2 <= rr * rr {
        false
    } else {
        let a2 = l2 - rr * rr;
        let y = pax * bax + pay * bay + paz * baz;
        let z = y - l2;
        let qx = pax * l2 - bax * y;
        let qy = pay * l2 - bay * y;
        let qz = paz * l2 - baz * y;
        let x2 = qx * qx + qy * qy + qz * qz;
        let y2 = y * y * l2;
        let z2 = z * z * l2;
        let k = sign(rr) * rr * rr * x2;
        !(sign(z) * a2 * z2 > k) && !(sign(y) * a2 * y2 < k)
    }
}

/// `floor_sqrt(l^2 n) / l` is at least `floor_sqrt(n)`.
proof fn lemma_scaled_root(l: int, n: int)
    requires
        l >= 1,
        n >= 0,
    ensures
        floor_sqrt(l * l * n) / l >= floor_sqrt(n),
{
    lemma_floor_sqrt(n);
    let s = floor_sqrt(n);
    assert(l * l * n >= 0) by (nonlinear_arith)
        requires
            l >= 1,
            n >= 0,
    ;
    lemma_floor_sqrt(l * l * n);
    let t = floor_sqrt(l * l * n);
    assert((l * s) * (l * s) <= l * l * n) by (nonlinear_arith)
        requires
            s * s <= n,
            l >= 1,
    ;
    if t < l * s {
        assert((t + 1) * (t + 1) <= (l * s) * (l * s)) by (nonlinear_arith)
            requires
                0 <= t,
                t + 1 <= l * s,
        ;
    }
    assert(t / l >= s) by (nonlinear_arith)
        requires
            t >= l * s,
            l >= 1,
    ;
}

/// `|q - d|^2 = |q|^2 - 2 q . d + |d|^2`.
proof fn lemma_diff_square3(q1: int, q2: int, q3: int, d1: int, d2: int, d3: int)
    ensures
        (q1 - d1) * (q1 - d1) + (q2 - d2) * (q2 - d2) + (q3 - d3) * (q3 - d3) == (q1 * q1 + q2 * q2
            + q3 * q3) - 2 * (q1 * d1 + q2 * d2 + q3 * d3) + (d1 * d1 + d2 * d2 + d3 * d3),
{
    crate::frustum_cone::lemma_square_of_sum(q1, d1);
    crate::frustum_cone::lemma_square_of_sum(q2, d2);
    crate::frustum_cone::lemma_square_of_sum(q3, d3);
}

/// Outside the lateral branch, a point where the round cone's distance is at most
/// zero lies within one of the end balls, hence in the bounding box.
pub proof fn lemma_round_cone_ends_in_box(c: RoundCone, p: Vec3i)
    requires
        c.wf(),
        in_range(p),
        c.distance_spec(p) <= 0,
        !round_cone_lateral(c.a, c.b, c.ra as int, c.rb as int, p),
    ensures
        c.bounding_box.contains_spec(p),
{
    let (a, b, ra, rb) = (c.a, c.b, c.ra as int, c.rb as int);
    let bax = b.x - a.x;
    let bay = b.y - a.y;
    let baz = b.z - a.z;
    let pax = p.x - a.x;
    let pay = p.y - a.y;
    let paz = p.z - a.z;
    let l2 = bax * bax + bay * bay + baz * baz;
    let rr = ra - rb;
    let pp = pax * pax + pay * pay + paz * paz;
    let nb = (p.x - b.x) * (p.x - b.x) + (p.y - b.y) * (p.y - b.y) + (p.z - b.z) * (p.z - b.z);
    assert(pp >= 0 && nb >= 0 && l2 >= 0) by (nonlinear_arith)
        requires
            pp == pax * pax + pay * pay + paz * paz,
            nb == (p.x - b.x) * (p.x - b.x) + (p.y - b.y) * (p.y - b.y) + (p.z - b.z) * (p.z
                - b.z),
            l2 == bax * bax + bay * bay + baz * baz,
    ;
    let near_a = floor_sqrt(pp) <= ra;
    let near_b = floor_sqrt(nb) <= rb;
    if l2 <= rr * rr {
        if ra >= rb {
            assert(near_a);
        } else {
            assert(near_b);
        }
    } else {
        let a2 = l2 - rr * rr;
        let y = pax * bax + pay * bay + paz * baz;
        let z = y - l2;
        let qx = pax * l2 - bax * y;
        let qy = pay * l2 - bay * y;
        let qz = paz * l2 - baz * y;
        let x2 = qx * qx + qy * qy + qz * qz;
        let y2 = y * y * l2;
        let z2 = z * z * l2;
        crate::frustum_cone::lemma_lagrange(pax, pay, paz, bax, bay, baz);
        assert(qx == l2 * pax - y * bax && qy == l2 * pay - y * bay && qz == l2 * paz - y * baz)
            by (nonlinear_arith)
            requires
                qx == pax * l2 - bax * y,
                qy == pay * l2 - bay * y,
                qz == paz * l2 - baz * y,
        ;
        assert(x2 == l2 * (l2 * pp - y * y));
        assert(rr * rr >= 0) by (nonlinear_arith);
        assert(l2 >= 1);
        lemma_diff_square3(pax, pay, paz, bax, bay, baz);
        assert((p.x - b.x) == pax - bax && (p.y - b.y) == pay - bay && (p.z - b.z) == paz - baz);
        assert(nb == pp - 2 * y + l2);
        let k = sign(rr) * rr * rr * x2;
        if sign(z) * a2 * z2 > k {
            assert(x2 + z2 == l2 * l2 * nb) by (nonlinear_arith)
                requires
                    x2 == l2 * (l2 * pp - y * y),
                    z2 == z * z * l2,
                    z == y - l2,
                    nb == pp - 2 * y + l2,
            ;
            lemma_scaled_root(l2, nb);
            assert(near_b);
        } else {
            assert(sign(y) * a2 * y2 < k);
            assert(x2 + y2 == l2 * l2 * pp) by (nonlinear_arith)
                requires
                    x2 == l2 * (l2 * pp - y * y),
                    y2 == y * y * l2,
            ;
            lemma_scaled_root(l2, pp);
            assert(near_a);
        }
    }
    if near_a {
        crate::sdf::lemma_dist2_bound(p, a);
        crate::sdf::lemma_axis_within_norm(pax, pp);
        crate::sdf::lemma_axis_within_norm(pay, pp);
        crate::sdf::lemma_axis_within_norm(paz, pp);
    } else {
        crate::sdf::lemma_dist2_bound(p, b);
        crate::sdf::lemma_axis_within_norm(p.x - b.x, nb);
        crate::sdf::lemma_axis_within_norm(p.y - b.y, nb);
        crate::sdf::lemma_axis_within_norm(p.z - b.z, nb);
    }
}

} // verus!
