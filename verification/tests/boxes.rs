use bevy_math::bounding::Aabb3d;
use bevy_math::{Affine3A, Mat3A, Quat, Vec3, Vec3A};
use bevy_mod_skinned_aabb::aabb::merge;
use bevy_mod_skinned_aabb::{aabb_transformed_by, PackedAabb3d};

fn packed(min: [f32; 3], max: [f32; 3]) -> PackedAabb3d {
    PackedAabb3d {
        min: Vec3::from_array(min),
        max: Vec3::from_array(max),
    }
}

#[test]
fn packing_and_unpacking() {
    let aabb = Aabb3d {
        min: Vec3A::new(1.0, -2.0, 3.5),
        max: Vec3A::new(4.0, 5.0, f32::INFINITY),
    };
    let packed = PackedAabb3d::from(aabb);
    assert_eq!(packed.min, Vec3::new(1.0, -2.0, 3.5));
    assert_eq!(packed.max, Vec3::new(4.0, 5.0, f32::INFINITY));
    let unpacked = Aabb3d::from(packed);
    assert_eq!(unpacked, aabb);
}

#[test]
fn merge_into_nothing() {
    let point = Vec3A::new(1.0, -2.0, 3.0);
    let aabb = merge(None, point);
    assert_eq!(aabb.min, point);
    assert_eq!(aabb.max, point);
}

#[test]
fn merge_extends_the_box() {
    let aabb = merge(None, Vec3A::new(1.0, -2.0, 3.0));
    let aabb = merge(Some(aabb), Vec3A::new(-1.0, 4.0, 3.5));
    assert_eq!(aabb.min, Vec3A::new(-1.0, -2.0, 3.0));
    assert_eq!(aabb.max, Vec3A::new(1.0, 4.0, 3.5));
}

#[test]
fn merge_with_a_point_inside() {
    let aabb = Aabb3d {
        min: Vec3A::new(-1.0, -1.0, -1.0),
        max: Vec3A::new(1.0, 1.0, 1.0),
    };
    let merged = merge(Some(aabb), Vec3A::new(0.5, 0.0, -0.5));
    assert_eq!(merged, aabb);
}

#[test]
fn transform_by_identity() {
    let aabb = aabb_transformed_by(
        packed([-1.0, -2.0, -3.0], [4.0, 5.0, 6.0]),
        Affine3A::IDENTITY,
    );
    assert_eq!(aabb.min, Vec3A::new(-1.0, -2.0, -3.0));
    assert_eq!(aabb.max, Vec3A::new(4.0, 5.0, 6.0));
}

#[test]
fn transform_by_translation() {
    let aabb = aabb_transformed_by(
        packed([-1.0, -2.0, -3.0], [4.0, 5.0, 6.0]),
        Affine3A::from_translation(Vec3::new(10.0, 20.0, 30.0)),
    );
    assert_eq!(aabb.min, Vec3A::new(9.0, 18.0, 27.0));
    assert_eq!(aabb.max, Vec3A::new(14.0, 25.0, 36.0));
}

#[test]
fn transform_by_mirror() {
    let aabb = aabb_transformed_by(
        packed([1.0, -2.0, -3.0], [4.0, 5.0, 6.0]),
        Affine3A::from_scale(Vec3::new(-2.0, 1.0, 0.5)),
    );
    assert_eq!(aabb.min, Vec3A::new(-8.0, -2.0, -1.5));
    assert_eq!(aabb.max, Vec3A::new(-2.0, 5.0, 3.0));
}

#[test]
fn transform_by_permutation_of_axes() {
    // x goes to y, y to z and z to x.
    let matrix = Mat3A::from_cols(Vec3A::Y, Vec3A::Z, Vec3A::X);
    let aabb = aabb_transformed_by(
        packed([1.0, 2.0, 3.0], [4.0, 6.0, 8.0]),
        Affine3A {
            matrix3: matrix,
            translation: Vec3A::new(100.0, 200.0, 300.0),
        },
    );
    assert_eq!(aabb.min, Vec3A::new(103.0, 201.0, 302.0));
    assert_eq!(aabb.max, Vec3A::new(108.0, 204.0, 306.0));
}

#[test]
fn transform_by_shear() {
    // x' = x + y - z, with the other coordinates unchanged.
    let matrix = Mat3A::from_cols(
        Vec3A::new(1.0, 0.0, 0.0),
        Vec3A::new(1.0, 1.0, 0.0),
        Vec3A::new(-1.0, 0.0, 1.0),
    );
    let aabb = aabb_transformed_by(
        packed([0.0, 0.0, 0.0], [1.0, 2.0, 4.0]),
        Affine3A {
            matrix3: matrix,
            translation: Vec3A::ZERO,
        },
    );
    assert_eq!(aabb.min, Vec3A::new(-4.0, 0.0, 0.0));
    assert_eq!(aabb.max, Vec3A::new(3.0, 2.0, 4.0));
}

#[test]
fn transformed_box_contains_transformed_points() {
    let input = packed([-1.3, 0.7, -2.9], [0.1, 5.5, 3.3]);
    let transform = Affine3A::from_scale_rotation_translation(
        Vec3::new(1.7, -0.3, 2.2),
        Quat::from_xyzw(0.1, -0.7, 0.3, 0.64).normalize(),
        Vec3::new(12.5, -7.25, 0.1),
    );
    let aabb = aabb_transformed_by(input, transform);
    assert!(aabb.min.cmple(aabb.max).all());
    let m = transform.matrix3;
    for i in 0..=4 {
        for j in 0..=4 {
            for k in 0..=4 {
                let weights = Vec3::new(i as f32, j as f32, k as f32) / 4.0;
                let p = (input.min + (input.max - input.min) * weights)
                    .max(input.min)
                    .min(input.max);
                let q = transform.translation
                    + m.x_axis * Vec3A::splat(p.x)
                    + m.y_axis * Vec3A::splat(p.y)
                    + m.z_axis * Vec3A::splat(p.z);
                assert!(aabb.min.cmple(q).all() && q.cmple(aabb.max).all());
            }
        }
    }
}

#[test]
fn one_step_is_never_looser() {
    // A turn by an eighth, but for its length, so that all numbers are whole.
    let turn = Affine3A {
        matrix3: Mat3A::from_cols(
            Vec3A::new(1.0, 1.0, 0.0),
            Vec3A::new(-1.0, 1.0, 0.0),
            Vec3A::new(0.0, 0.0, 1.0),
        ),
        translation: Vec3A::new(3.0, 0.0, -1.0),
    };
    let input = packed([-1.0, -2.0, 0.0], [1.0, 2.0, 5.0]);
    let one = aabb_transformed_by(input, turn * turn);
    let two = aabb_transformed_by(PackedAabb3d::from(aabb_transformed_by(input, turn)), turn);
    assert!(two.min.cmple(one.min).all() && one.max.cmple(two.max).all());
    assert_eq!(one.min, Vec3A::new(2.0, 1.0, -2.0));
    assert_eq!(one.max, Vec3A::new(10.0, 5.0, 3.0));
    assert_eq!(two.min, Vec3A::new(0.0, -3.0, -2.0));
    assert_eq!(two.max, Vec3A::new(12.0, 9.0, 3.0));
}
