use sdflit::material::{Axis, ColoredMaterial, DynMaterial, LinearGradientMaterial};
use sdflit::object::SDFObject;
use sdflit::round_cone::RoundCone;
use sdflit::scene::{ObjectsScene, SceneError, SceneState};
use sdflit::sdf::{Aabb, SDFHitInfo, Sphere};
use sdflit::vec3::{Vec3, FRAC_ONE};

fn v(x: i64, y: i64, z: i64) -> Vec3<i64> {
    Vec3::new(x, y, z)
}

fn red_ball(c: Vec3<i64>, r: i64) -> SDFObject {
    SDFObject::new(Sphere::new(c, r).into(), ColoredMaterial::new(v(255, 0, 0)).into())
}

#[test]
fn one_sphere_scene() {
    let mut scene = ObjectsScene::new();
    assert_eq!(scene.add_object(red_ball(v(0, 0, 0), 1)), Ok(()));
    assert_eq!(scene.hit(v(0, 0, 0)), v(255, 0, 0));
    assert_eq!(scene.hit(v(10, 10, 10)), v(0, 0, 0));
    assert_eq!(scene.build_bvh(), Ok(()));
    assert_eq!(scene.hit(v(0, 0, 0)), v(255, 0, 0));
    assert_eq!(scene.hit(v(10, 10, 10)), v(0, 0, 0));
}

#[test]
fn scene_is_frozen_after_build() {
    let mut scene = ObjectsScene::new();
    scene.add_object(red_ball(v(0, 0, 0), 1)).unwrap();
    assert_eq!(scene.build_bvh(), Ok(()));
    assert!(matches!(scene.state, SceneState::Accelerated(_)));
    assert_eq!(scene.add_object(red_ball(v(5, 0, 0), 1)), Err(SceneError::InvalidState));
    assert_eq!(scene.build_bvh(), Err(SceneError::InvalidState));
    assert_eq!(scene.hit(v(5, 0, 0)), v(0, 0, 0));
}

#[test]
fn background_color_where_nothing_hits() {
    let mut scene = ObjectsScene::new();
    scene.set_background(v(1, 2, 3));
    assert_eq!(scene.hit(v(0, 0, 0)), v(1, 2, 3));
    scene.add_object(red_ball(v(0, 0, 0), 2)).unwrap();
    assert_eq!(scene.hit(v(0, 0, 0)), v(255, 0, 0));
    assert_eq!(scene.hit(v(0, 3, 0)), v(1, 2, 3));
}

#[test]
fn first_object_in_list_order_wins() {
    let mut scene = ObjectsScene::new();
    scene.add_object(red_ball(v(0, 0, 0), 3)).unwrap();
    scene
        .add_object(SDFObject::new(
            Sphere::new(v(1, 0, 0), 3).into(),
            ColoredMaterial::new(v(0, 0, 255)).into(),
        ))
        .unwrap();
    assert_eq!(scene.hit(v(1, 0, 0)), v(255, 0, 0));
    assert_eq!(scene.hit(v(4, 0, 0)), v(0, 0, 255));
}

#[test]
fn scene_bounding_box() {
    let mut scene = ObjectsScene::new();
    assert_eq!(scene.bounding_box(), None);
    scene.add_object(red_ball(v(0, 0, 0), 1)).unwrap();
    scene.add_object(red_ball(v(5, -3, 2), 2)).unwrap();
    let expected = Aabb::new(v(-1, -5, -1), v(7, 1, 4));
    assert_eq!(scene.bounding_box(), Some(expected));
    scene.build_bvh().unwrap();
    assert_eq!(scene.bounding_box(), Some(expected));
}

#[test]
fn empty_scene_indexed() {
    let mut scene = ObjectsScene::new();
    assert_eq!(scene.build_bvh(), Ok(()));
    assert_eq!(scene.bounding_box(), None);
    assert_eq!(scene.hit(v(0, 0, 0)), v(0, 0, 0));
}

#[test]
fn gradient_follows_axis_parameter() {
    let g = LinearGradientMaterial::new(v(100, 100, 100), v(0, 0, 0), Axis::V);
    let info = SDFHitInfo { distance: -1, u: 0, v: FRAC_ONE / 2, w: 0 };
    assert_eq!(g.hit(info), v(50, 50, 50));
    let top = SDFHitInfo { distance: -1, u: 0, v: 2 * FRAC_ONE, w: 0 };
    assert_eq!(g.hit(top), v(100, 100, 100));
    let low = SDFHitInfo { distance: -1, u: 0, v: -5, w: 0 };
    assert_eq!(g.hit(low), v(0, 0, 0));
    let m: DynMaterial = g.into();
    assert_eq!(m.hit(info), v(50, 50, 50));
}

#[test]
fn gradient_object_on_round_cone() {
    let cone = RoundCone::new(v(0, 0, 0), v(10, 0, 0), 2, 2);
    let g = LinearGradientMaterial::new(v(100, 100, 100), v(0, 0, 0), Axis::V);
    let obj = SDFObject::new(cone.into(), g.into());
    assert_eq!(obj.hit(v(5, 1, 0)), Some(v(50, 50, 50)));
    assert_eq!(obj.hit(v(5, 5, 0)), None);
    assert_eq!(obj.bounding_box(), Aabb::new(v(-2, -2, -2), v(12, 2, 2)));
}

#[test]
fn colored_material_ignores_hit() {
    let c = ColoredMaterial::new(v(7, 8, 9));
    let info = SDFHitInfo { distance: -3, u: 1, v: 2, w: 3 };
    assert_eq!(c.hit(info), v(7, 8, 9));
}

#[test]
fn axis_names() {
    assert_eq!(Axis::try_from('u'), Some(Axis::U));
    assert_eq!(Axis::try_from('V'), Some(Axis::V));
    assert_eq!(Axis::try_from('w'), Some(Axis::W));
    assert_eq!(Axis::try_from('x'), None);
}
