use sdflit::accelerator::{BVHNode, BVH};
use sdflit::material::ColoredMaterial;
use sdflit::object::SDFObject;
use sdflit::round_cone::RoundCone;
use sdflit::scene::first_object_hit;
use sdflit::sdf::{merge, subtract, Aabb, DynSDF, Sphere};
use sdflit::vec3::Vec3;

fn v(x: i64, y: i64, z: i64) -> Vec3<i64> {
    Vec3::new(x, y, z)
}

fn ball(c: Vec3<i64>, r: i64, color: i64) -> SDFObject {
    SDFObject::new(Sphere::new(c, r).into(), ColoredMaterial::new(v(color, color, color)).into())
}

fn leaves(node: &BVHNode, out: &mut Vec<usize>) {
    match node {
        BVHNode::Leaf { index, .. } => out.push(*index),
        BVHNode::Internal { left, right, .. } => {
            leaves(left, out);
            leaves(right, out);
        }
    }
}

fn scattered() -> Vec<SDFObject> {
    let cone: DynSDF = RoundCone::new(v(-8, -8, 0), v(-2, -6, 2), 2, 1).into();
    let holed = subtract(
        Sphere::new(v(6, 6, 6), 3).into(),
        Sphere::new(v(8, 6, 6), 2).into(),
    );
    let pair = merge(Sphere::new(v(0, 8, -4), 2).into(), Sphere::new(v(3, 8, -4), 2).into());
    vec![
        ball(v(0, 0, 0), 3, 1),
        ball(v(10, 0, 0), 2, 2),
        SDFObject::new(cone, ColoredMaterial::new(v(3, 3, 3)).into()),
        SDFObject::new(holed, ColoredMaterial::new(v(4, 4, 4)).into()),
        SDFObject::new(pair, ColoredMaterial::new(v(5, 5, 5)).into()),
        ball(v(-6, 6, 6), 2, 6),
        ball(v(0, -9, 9), 4, 7),
    ]
}

#[test]
fn bvh_agrees_with_linear_scan() {
    let objs = scattered();
    let bvh = BVH::new(objs.clone());
    let mut hits = 0;
    for x in -12..=14 {
        for y in -14..=12 {
            for z in (-8..=14).step_by(2) {
                let p = v(x, y, z);
                let indexed = bvh.hit(p);
                let scanned = first_object_hit(&objs, p);
                assert_eq!(indexed.is_some(), scanned.is_some(), "at {:?}", p);
                // the objects do not overlap, so the colors agree too
                assert_eq!(indexed, scanned, "at {:?}", p);
                if indexed.is_some() {
                    hits += 1;
                }
            }
        }
    }
    assert!(hits > 100);
}

#[test]
fn bvh_overlapping_objects_agree_on_hit() {
    let objs = vec![ball(v(0, 0, 0), 4, 1), ball(v(2, 0, 0), 4, 2), ball(v(1, 1, 0), 4, 3)];
    let bvh = BVH::new(objs.clone());
    for x in -6..=8 {
        for y in -6..=6 {
            let p = v(x, y, 0);
            assert_eq!(bvh.hit(p).is_some(), first_object_hit(&objs, p).is_some());
        }
    }
}

#[test]
fn build_twice_gives_same_tree() {
    let a = BVH::new(scattered());
    let b = BVH::new(scattered());
    assert_eq!(a.root, b.root);
    let mut la = Vec::new();
    leaves(a.root.as_ref().unwrap(), &mut la);
    let mut sorted = la.clone();
    sorted.sort();
    assert_eq!(sorted, vec![0, 1, 2, 3, 4, 5, 6]);
}

#[test]
fn median_split_along_widest_axis() {
    let objs = vec![
        ball(v(30, 0, 0), 1, 1),
        ball(v(0, 0, 0), 1, 2),
        ball(v(20, 0, 0), 1, 3),
        ball(v(10, 0, 0), 1, 4),
    ];
    let bvh = BVH::new(objs);
    let root = bvh.root.as_ref().unwrap();
    let mut order = Vec::new();
    leaves(root, &mut order);
    assert_eq!(order, vec![1, 3, 2, 0]);
    match root {
        BVHNode::Internal { n, bounding_box, .. } => {
            assert_eq!(*n, 4);
            assert_eq!(*bounding_box, Aabb::new(v(-1, -1, -1), v(31, 1, 1)));
        }
        BVHNode::Leaf { .. } => panic!("expected an inner node"),
    }
    assert_eq!(bvh.bounding_box(), Some(Aabb::new(v(-1, -1, -1), v(31, 1, 1))));
}

#[test]
fn odd_count_splits_at_half() {
    let objs = vec![ball(v(0, 0, 0), 1, 1), ball(v(0, 5, 0), 1, 2), ball(v(0, 10, 0), 1, 3)];
    let bvh = BVH::new(objs);
    match bvh.root.as_ref().unwrap() {
        BVHNode::Internal { left, right, n, .. } => {
            assert_eq!(*n, 3);
            assert!(matches!(**left, BVHNode::Leaf { index: 0, .. }));
            assert!(matches!(**right, BVHNode::Internal { n: 2, .. }));
        }
        BVHNode::Leaf { .. } => panic!("expected an inner node"),
    }
}

#[test]
fn single_object_is_a_leaf() {
    let bvh = BVH::new(vec![ball(v(1, 2, 3), 2, 9)]);
    assert_eq!(
        bvh.root,
        Some(BVHNode::Leaf { bounding_box: Aabb::new(v(-1, 0, 1), v(3, 4, 5)), index: 0 })
    );
    assert_eq!(bvh.hit(v(1, 2, 3)), Some(v(9, 9, 9)));
    assert_eq!(bvh.hit(v(4, 2, 3)), None);
}

#[test]
fn empty_bvh_has_no_box_and_no_hit() {
    let bvh = BVH::new(Vec::new());
    assert!(bvh.root.is_none());
    assert_eq!(bvh.bounding_box(), None);
    for p in [v(0, 0, 0), v(5, -5, 5), v(-4096, 4096, 0)] {
        assert_eq!(bvh.hit(p), None);
    }
}
