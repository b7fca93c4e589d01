use sdflit::frustum_cone::{aabb_frustum_cone, proj_vector_on_plane, sd_frustum_cone, FrustumCone};
use sdflit::round_cone::{sd_round_cone, RoundCone};
use sdflit::sdf::{intersect, merge, subtract, Aabb, DynSDF, SDFHitInfo, Sphere};
use sdflit::solid_geometry::proj_p_to_line;
use sdflit::vec3::{Vec3, FRAC_ONE};

fn v(x: i64, y: i64, z: i64) -> Vec3<i64> {
    Vec3::new(x, y, z)
}

fn sphere(c: Vec3<i64>, r: i64) -> DynSDF {
    Sphere::new(c, r).into()
}

#[test]
fn unit_sphere_scenario() {
    let s = Sphere::new(v(0, 0, 0), 1);
    assert_eq!(s.distance(v(2, 0, 0)), 1);
    assert_eq!(s.distance(v(0, 0, 0)), -1);
    assert_eq!(s.bounding_box(), Aabb::new(v(-1, -1, -1), v(1, 1, 1)));
}

#[test]
fn sphere_scenario_at_half_scale() {
    // the unit sphere with every length doubled: (0.5, 0, 0) becomes (1, 0, 0)
    let s = Sphere::new(v(0, 0, 0), 2);
    assert!(s.inside(v(1, 0, 0)));
    assert_eq!(s.distance(v(4, 0, 0)), 2);
    assert_eq!(s.distance(v(0, 0, 0)), -2);
    assert!(!s.inside(v(3, 0, 0)));
}

#[test]
fn union_scenario() {
    // spheres of radius 1 at 0 and 3, lengths doubled; (1.5, 0, 0) becomes (3, 0, 0)
    let u = merge(sphere(v(0, 0, 0), 2), sphere(v(6, 0, 0), 2));
    assert_eq!(u.distance(v(3, 0, 0)), 1);
    assert_eq!(u.bounding_box(), Aabb::new(v(-2, -2, -2), v(8, 2, 2)));
}

#[test]
fn union_distance_is_min_at_center() {
    let a = sphere(v(0, 0, 0), 3);
    let b = sphere(v(4, 0, 0), 3);
    let da = a.distance(v(0, 0, 0));
    let db = b.distance(v(0, 0, 0));
    let u = merge(a, b);
    assert_eq!(u.distance(v(0, 0, 0)), da.min(db));
    assert_eq!(u.distance(v(0, 0, 0)), -3);
}

#[test]
fn difference_inside_and_box() {
    let a = sphere(v(0, 0, 0), 4);
    let b = sphere(v(4, 0, 0), 2);
    let d = subtract(a.clone(), b.clone());
    assert_eq!(d.bounding_box(), a.bounding_box());
    for x in -5..=5 {
        let p = v(x, 0, 0);
        if d.inside(p) {
            assert!(a.inside(p));
            assert!(!b.inside(p));
        }
    }
    assert!(d.inside(v(0, 0, 0)));
    assert!(!d.inside(v(3, 0, 0)));
    assert_eq!(d.distance(v(3, 0, 0)), 1);
}

#[test]
fn intersection_box_takes_larger_corners() {
    let a = sphere(v(0, 0, 0), 2);
    let b = sphere(v(2, 1, 0), 2);
    let i = intersect(a, b);
    assert_eq!(i.bounding_box(), Aabb::new(v(0, -1, -2), v(4, 3, 2)));
    assert!(i.inside(v(1, 0, 0)));
    assert!(!i.inside(v(0, 0, 0)));
    assert_eq!(i.distance(v(0, 0, 0)), 0);
    assert!(!i.inside(v(-1, 0, 0)));
    assert_eq!(i.distance(v(-1, 0, 0)), 1);
}

#[test]
fn sign_matches_inside_within_box() {
    let cut = intersect(sphere(v(0, 0, 0), 2), sphere(v(1, 0, 0), 2));
    let t = subtract(merge(sphere(v(0, 0, 0), 5), sphere(v(7, 0, 0), 3)), cut.clone());
    let bb = t.bounding_box();
    for x in -9..=11 {
        for y in -6..=6 {
            let p = v(x, y, 0);
            if !t.inside_bounding_box(p) {
                assert!(!t.inside(p));
            } else if cut.distance(p) != 0 {
                // on the surface of the cut the distance is zero while the point is inside
                assert!(bb.contains(p));
                assert_eq!(t.distance(p) < 0, t.inside(p), "at {:?}", p);
            }
        }
    }
}

#[test]
fn inside_implies_in_box() {
    let t = merge(sphere(v(0, 0, 0), 3), RoundCone::new(v(0, 0, 0), v(8, 0, 0), 1, 2).into());
    for x in -10..=12 {
        for y in -5..=5 {
            let p = v(x, y, 1);
            if t.inside(p) {
                assert!(t.bounding_box().contains(p));
            }
        }
    }
}

#[test]
fn sphere_hit_reports_distance() {
    let s = Sphere::new(v(0, 0, 0), 4);
    assert_eq!(s.hit(v(1, 0, 0)), Some(SDFHitInfo { distance: -3, u: 0, v: 0, w: 0 }));
    assert_eq!(s.hit(v(4, 0, 0)), Some(SDFHitInfo { distance: 0, u: 0, v: 0, w: 0 }));
    assert_eq!(s.hit(v(5, 0, 0)), None);
}

#[test]
fn composite_hit_needs_negative_distance() {
    let u = merge(sphere(v(0, 0, 0), 4), sphere(v(20, 0, 0), 1));
    assert_eq!(u.hit(v(4, 0, 0)), None);
    assert_eq!(u.hit(v(1, 0, 0)), Some(SDFHitInfo { distance: -3, u: 0, v: 0, w: 0 }));
}

#[test]
fn round_cone_distances() {
    let c = RoundCone::new(v(0, 0, 0), v(10, 0, 0), 2, 2);
    assert_eq!(c.distance(v(5, 5, 0)), 3);
    assert_eq!(c.distance(v(15, 0, 0)), 3);
    assert_eq!(c.distance(v(-4, 0, 0)), 2);
    assert_eq!(c.distance(v(5, 1, 0)), -1);
    assert_eq!(sd_round_cone(v(5, 5, 0), v(0, 0, 0), v(10, 0, 0), 2, 2), 3);
    assert_eq!(c.bounding_box(), Aabb::new(v(-2, -2, -2), v(12, 2, 2)));
    assert!(c.inside(v(5, 1, 0)));
    assert!(!c.inside(v(5, 5, 0)));
}

#[test]
fn round_cone_tapered() {
    let c = RoundCone::new(v(0, 0, 0), v(0, 10, 0), 4, 1);
    assert_eq!(c.distance(v(0, -6, 0)), 2);
    assert_eq!(c.distance(v(0, 13, 0)), 2);
    assert!(c.distance(v(0, 5, 0)) < 0);
    assert_eq!(c.bounding_box(), Aabb::new(v(-4, -4, -4), v(4, 11, 4)));
}

#[test]
fn round_cone_degenerate_segment_is_a_ball() {
    // the larger end ball holds the smaller one
    let c = RoundCone::new(v(1, 1, 1), v(1, 1, 1), 3, 5);
    assert_eq!(c.distance(v(1, 1, 1)), -5);
    assert_eq!(c.distance(v(7, 1, 1)), 1);
    let d = RoundCone::new(v(1, 1, 1), v(1, 1, 1), 5, 3);
    assert_eq!(d.distance(v(7, 1, 1)), 1);
}

#[test]
fn round_cone_with_nested_end_ball() {
    let c = RoundCone::new(v(1, 5, -6), v(2, 5, -6), 1, 0);
    assert_eq!(c.bounding_box(), Aabb::new(v(0, 4, -7), v(2, 6, -5)));
    assert_eq!(c.distance(v(-2, 5, -6)), 2);
    assert_eq!(c.distance(v(1, 5, -6)), -1);
    let d = RoundCone::new(v(0, 0, 0), v(1, 0, 0), 0, 3);
    assert_eq!(d.distance(v(5, 0, 0)), 1);
    assert_eq!(d.distance(v(1, 0, 0)), -3);
    for x in -8..=8 {
        for y in -8..=8 {
            for z in -8..=8 {
                let p = v(x, y, z);
                if c.distance(p) <= 0 {
                    assert!(c.bounding_box().contains(p));
                }
                if d.distance(p) <= 0 {
                    assert!(d.bounding_box().contains(p));
                }
            }
        }
    }
}

#[test]
fn round_cone_hit_parameters() {
    let c = RoundCone::new(v(0, 0, 0), v(10, 0, 0), 2, 2);
    assert_eq!(
        c.hit(v(5, 1, 0)),
        Some(SDFHitInfo { distance: -1, u: 0, v: FRAC_ONE / 2, w: 0 })
    );
    assert_eq!(c.hit(v(5, 5, 0)), None);
    let d: DynSDF = c.into();
    assert_eq!(d.hit(v(10, 0, 0)).map(|h| h.v), Some(FRAC_ONE));
    let off = RoundCone::new(v(0, 0, 1), v(0, 0, 3), 1, 1);
    assert_eq!(off.hit(v(0, 0, 2)).map(|h| h.v), Some(FRAC_ONE / 2));
    assert_eq!(off.hit(v(0, 0, 0)).map(|h| h.v), Some(0));
}

#[test]
fn projection_onto_line() {
    assert_eq!(proj_p_to_line(v(5, 3, 0), v(0, 0, 0), v(10, 0, 0)), FRAC_ONE / 2);
    assert_eq!(proj_p_to_line(v(10, 3, 0), v(0, 0, 0), v(10, 0, 0)), FRAC_ONE);
    assert_eq!(proj_p_to_line(v(-5, 0, 0), v(0, 0, 0), v(10, 0, 0)), -FRAC_ONE / 2);
    assert_eq!(proj_p_to_line(v(3, 3, 3), v(1, 1, 1), v(1, 1, 1)), 0);
    // measured from a, not from the origin
    assert_eq!(proj_p_to_line(v(0, 0, 2), v(0, 0, 1), v(0, 0, 3)), FRAC_ONE / 2);
    assert_eq!(proj_p_to_line(v(7, 9, 1), v(0, 0, 1), v(0, 0, 3)), 0);
}

#[test]
fn frustum_cone_distances() {
    let f = FrustumCone::new(v(0, 0, 0), v(0, 10, 0), 4, 2);
    assert_eq!(f.distance(v(0, 5, 0)), -3);
    assert_eq!(f.distance(v(10, 5, 0)), 6);
    assert_eq!(f.distance(v(0, -3, 0)), 3);
    assert_eq!(f.distance(v(0, 15, 0)), 5);
    assert_eq!(f.distance(v(5, -2, 0)), 2);
    assert_eq!(f.distance(v(4, 0, 0)), 0);
    assert_eq!(sd_frustum_cone(v(0, 5, 0), v(0, 0, 0), v(0, 10, 0), 4, 2), -3);
    assert!(f.inside(v(0, 5, 0)));
    assert!(!f.inside(v(3, 5, 0)));
}

#[test]
fn frustum_cone_boxes() {
    let f = FrustumCone::new(v(0, 0, 0), v(0, 10, 0), 4, 2);
    assert_eq!(f.bounding_box(), Aabb::new(v(-5, -1, -5), v(5, 11, 5)));
    assert_eq!(
        aabb_frustum_cone(v(0, 0, 0), v(3, 4, 0), 2, 1),
        Aabb::new(v(-2, -2, -3), v(5, 6, 3))
    );
    assert_eq!(
        aabb_frustum_cone(v(1, 1, 1), v(1, 1, 1), 2, 3),
        Aabb::new(v(-2, -2, -2), v(4, 4, 4))
    );
}

#[test]
fn frustum_box_encloses_oblique_cone() {
    let f = FrustumCone::new(v(64, 64, 0), v(0, 0, 0), 64, 64);
    assert_eq!(f.bounding_box(), Aabb::new(v(-46, -46, -65), v(110, 110, 65)));
    assert!(f.distance(v(51, -26, 0)) < 0);
    assert!(f.bounding_box().contains(v(51, -26, 0)));
    let g = FrustumCone::new(v(-7, 3, 2), v(5, -4, 9), 6, 3);
    let bb = g.bounding_box();
    for x in -20..=20 {
        for y in -20..=20 {
            for z in -12..=20 {
                let p = v(x, y, z);
                if g.distance(p) < 0 {
                    assert!(bb.contains(p), "at {:?}", p);
                }
            }
        }
    }
}

#[test]
fn frustum_cone_hit_uses_plain_parameters() {
    let f: DynSDF = FrustumCone::new(v(0, 0, 0), v(0, 10, 0), 4, 2).into();
    assert_eq!(f.hit(v(0, 5, 0)), Some(SDFHitInfo { distance: -3, u: 0, v: 0, w: 0 }));
    assert_eq!(f.hit(v(4, 0, 0)), None);
}

#[test]
fn plane_projection_is_scaled() {
    // |n|^2 = 25; the x axis projected onto the plane normal to (3, 4, 0)
    assert_eq!(proj_vector_on_plane(v(1, 0, 0), v(3, 4, 0)), v(16, -12, 0));
    assert_eq!(proj_vector_on_plane(v(0, 0, 1), v(3, 4, 0)), v(0, 0, 25));
}
