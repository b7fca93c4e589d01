use vstd::prelude::*;

use crate::sdf::in_range;
use crate::vec3::{floor_div_i128, lemma_div_abs_le, lemma_mul_bound, Vec3i, FRAC_ONE};

verus! {

/// Position of `p` along the segment from `a` to `b`, as a signed fraction of
/// `FRAC_ONE`: `(p - a) . (b - a) / |b - a|^2`, rounded down; 0 at `a`, `FRAC_ONE`
/// at `b`. Zero when `a == b`.
pub open spec fn proj_p_to_line_spec(p: Vec3i, a: Vec3i, b: Vec3i) -> int {
    let abx = b.x - a.x;
    let aby = b.y - a.y;
    let abz = b.z - a.z;
    let l2 = abx * abx + aby * aby + abz * abz;
    if l2 == 0 {
        0
    } else {
        (((p.x - a.x) * abx + (p.y - a.y) * aby + (p.z - a.z) * abz) * FRAC_ONE) / l2
    }
}

/// Projects `p` onto the line through `a` and `b`; see `proj_p_to_line_spec`.
pub fn proj_p_to_line(p: Vec3i, a: Vec3i, b: Vec3i) -> (r: i64)
    requires
        in_range(p),
        in_range(a),
        in_range(b),
    ensures
        r == proj_p_to_line_spec(p, a, b),
{
    let abx = (b.x - a.x) as i128;
    let aby = (b.y - a.y) as i128;
    let abz = (b.z - a.z) as i128;
    let apx = (p.x - a.x) as i128;
    let apy = (p.y - a.y) as i128;
    let apz = (p.z - a.z) as i128;
    let ghost m13: int = 0x2000;
    proof {
        lemma_mul_bound(abx as int, abx as int, m13, m13);
        lemma_mul_bound(aby as int, aby as int, m13, m13);
        lemma_mul_bound(abz as int, abz as int, m13, m13);
        lemma_mul_bound(apx as int, abx as int, m13, m13);
        lemma_mul_bound(apy as int, aby as int, m13, m13);
        lemma_mul_bound(apz as int, abz as int, m13, m13);
        assert(abx * abx >= 0 && aby * aby >= 0 && abz * abz >= 0) by (nonlinear_arith);
    }
    let l2 = abx * abx + aby * aby + abz * abz;
    if l2 == 0 {
        return 0;
    }
    let t = apx * abx + apy * aby + apz * abz;
    let f = FRAC_ONE as i128;
    proof {
        lemma_mul_bound(t as int, f as int, 0x1000_0000, 0x1_0000);
        lemma_div_abs_le((t * f) as int, l2 as int);
    }
    floor_div_i128(t * f, l2) as i64
}

} // verus!
