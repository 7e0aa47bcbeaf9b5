//! The vectors, matrices and boxes of `bevy_math` and its neighbours.
//!
//! A vector is known by its *lanes*, the bit patterns of its coordinates. Arithmetic on lanes is
//! described on their keys (see [`crate::float`]).
use bevy_camera::primitives::Aabb;
use bevy_math::bounding::{Aabb3d, BoundingVolume};
use bevy_math::{Affine3A, Mat3A, Mat4, Vec3, Vec3A};
use bevy_transform::components::GlobalTransform;
use vstd::prelude::*;

use crate::float::{
    float_difference, float_product, float_sum, hi, is_number, key, keys, le, lo, product_is_monotone,
    sum_is_monotone, Key, HALF_BITS, MAX_BITS, SIGN_BIT,
};

verus! {

/// `bevy_math::Vec3`, known by [`vec3_lanes`].
#[verifier::external_type_specification]
#[verifier::external_body]
pub struct ExVec3(Vec3);

/// `bevy_math::Vec3A`, known by [`vec3a_lanes`].
#[verifier::external_type_specification]
#[verifier::external_body]
pub struct ExVec3A(Vec3A);

/// `bevy_math::Mat4`, known by [`mat4_lanes`].
#[verifier::external_type_specification]
#[verifier::external_body]
pub struct ExMat4(Mat4);

/// `bevy_math::Mat3A`, three public columns.
#[verifier::external_type_specification]
pub struct ExMat3A(Mat3A);

/// `bevy_math::Affine3A`, a public matrix and a public translation.
#[verifier::external_type_specification]
pub struct ExAffine3A(Affine3A);

/// `bevy_math::bounding::Aabb3d`, two public corners.
#[verifier::external_type_specification]
pub struct ExAabb3d(Aabb3d);

/// `bevy_camera::primitives::Aabb`, a public centre and public half extents.
#[verifier::external_type_specification]
pub struct ExAabb(Aabb);

/// `bevy_transform::components::GlobalTransform`, known by [`global_transform_lanes`].
#[verifier::external_type_specification]
#[verifier::external_body]
pub struct ExGlobalTransform(GlobalTransform);

/// The bit patterns of the coordinates x, y and z.
pub uninterp spec fn vec3_lanes(v: Vec3) -> Seq<u32>;

/// The bit patterns of the coordinates x, y and z.
pub uninterp spec fn vec3a_lanes(v: Vec3A) -> Seq<u32>;

/// The bit patterns of the sixteen elements, column by column.
pub uninterp spec fn mat4_lanes(m: Mat4) -> Seq<u32>;

/// The bit patterns of the twelve elements of the transform that it holds, column by column, the
/// translation last.
pub uninterp spec fn global_transform_lanes(g: GlobalTransform) -> Seq<u32>;

/// The keys of the elements of the inverse of the affine transform with these elements.
pub uninterp spec fn affine_inverse(lanes: Seq<u32>) -> Seq<Option<int>>;

/// The keys of the coordinates.
pub open spec fn vec3_keys(v: Vec3) -> Seq<Key> {
    keys(vec3_lanes(v), 3)
}

/// The keys of the coordinates.
pub open spec fn vec3a_keys(v: Vec3A) -> Seq<Key> {
    keys(vec3a_lanes(v), 3)
}

/// A column of an affine transform; the fourth is its translation.
pub open spec fn affine_column(a: Affine3A, column: int) -> Vec3A {
    if column == 0 {
        a.matrix3.x_axis
    } else if column == 1 {
        a.matrix3.y_axis
    } else if column == 2 {
        a.matrix3.z_axis
    } else {
        a.translation
    }
}

/// The bit patterns of the elements, column by column, the translation last.
pub open spec fn affine_lanes(a: Affine3A) -> Seq<u32> {
    Seq::new(12, |k: int| vec3a_lanes(affine_column(a, k / 3))[k % 3])
}

/// The keys of the elements, column by column, the translation last.
pub open spec fn affine_keys(a: Affine3A) -> Seq<Key> {
    keys(affine_lanes(a), 12)
}

/// One coordinate of the product of the matrix of `a` and the vector `x`, `y`, `z`.
pub open spec fn matrix_row(a: Seq<Key>, row: int, x: Key, y: Key, z: Key) -> Key {
    float_sum(
        float_sum(float_product(a[row], x), float_product(a[3 + row], y)),
        float_product(a[6 + row], z),
    )
}

/// The elements of the affine transform that applies `b` and then `a`.
pub open spec fn affine_product(a: Seq<Key>, b: Seq<Key>) -> Seq<Key> {
    Seq::new(
        12,
        |k: int|
            {
                let linear = matrix_row(
                    a,
                    k % 3,
                    b[3 * (k / 3)],
                    b[3 * (k / 3) + 1],
                    b[3 * (k / 3) + 2],
                );
                if k < 9 {
                    linear
                } else {
                    float_sum(linear, a[k])
                }
            },
    )
}

/// The point `p` transformed by the matrix `m`, taken as an affine transform.
pub open spec fn point_transformed(m: Seq<Key>, p: Seq<Key>) -> Seq<Key> {
    Seq::new(
        3,
        |i: int|
            float_sum(
                m[12 + i],
                float_sum(
                    float_product(m[8 + i], p[2]),
                    float_sum(float_product(m[4 + i], p[1]), float_product(m[i], p[0])),
                ),
            ),
    )
}

/// A vector has three coordinates, each by the key of its lane.
pub proof fn law_vectors_have_three_keys(v: Vec3, w: Vec3A, i: int)
    requires
        0 <= i < 3,
    ensures
        vec3_keys(v).len() == 3,
        vec3_keys(v)[i] == key(vec3_lanes(v)[i]),
        vec3a_keys(w).len() == 3,
        vec3a_keys(w)[i] == key(vec3a_lanes(w)[i]),
{
}

/// The twelve elements of an affine transform are those of its three axes and its translation.
pub proof fn law_affine_elements(a: Affine3A, i: int)
    requires
        0 <= i < 3,
    ensures
        affine_lanes(a).len() == 12,
        affine_keys(a).len() == 12,
        affine_lanes(a)[i] == vec3a_lanes(a.matrix3.x_axis)[i],
        affine_lanes(a)[3 + i] == vec3a_lanes(a.matrix3.y_axis)[i],
        affine_lanes(a)[6 + i] == vec3a_lanes(a.matrix3.z_axis)[i],
        affine_lanes(a)[9 + i] == vec3a_lanes(a.translation)[i],
        affine_keys(a)[i] == key(vec3a_lanes(a.matrix3.x_axis)[i]),
        affine_keys(a)[3 + i] == key(vec3a_lanes(a.matrix3.y_axis)[i]),
        affine_keys(a)[6 + i] == key(vec3a_lanes(a.matrix3.z_axis)[i]),
        affine_keys(a)[9 + i] == key(vec3a_lanes(a.translation)[i]),
{
    assert(i / 3 == 0 && i % 3 == i);
    assert((3 + i) / 3 == 1 && (3 + i) % 3 == i);
    assert((6 + i) / 3 == 2 && (6 + i) % 3 == i);
    assert((9 + i) / 3 == 3 && (9 + i) % 3 == i);
}

/// A product of affine transforms has, in each column, the matrix of the first applied to that
/// column of the second, and its translation has the translation of the first added to it.
pub proof fn law_affine_product_is_by_columns(a: Seq<Key>, b: Seq<Key>, c: int, i: int)
    requires
        0 <= c < 4,
        0 <= i < 3,
    ensures
        affine_product(a, b).len() == 12,
        ({
            let moved = float_sum(
                float_sum(
                    float_product(a[i], b[3 * c]),
                    float_product(a[3 + i], b[3 * c + 1]),
                ),
                float_product(a[6 + i], b[3 * c + 2]),
            );
            affine_product(a, b)[3 * c + i] == if c == 3 {
                float_sum(moved, a[9 + i])
            } else {
                moved
            }
        }),
{
    assert((3 * c + i) / 3 == c && (3 * c + i) % 3 == i);
}

/// A point transformed by a matrix is the fourth column plus the other columns, each by its
/// coordinate.
pub proof fn law_point_is_transformed_by_columns(m: Seq<Key>, p: Seq<Key>, i: int)
    requires
        0 <= i < 3,
    ensures
        point_transformed(m, p).len() == 3,
        point_transformed(m, p)[i] == float_sum(
            m[12 + i],
            float_sum(
                float_product(m[8 + i], p[2]),
                float_sum(float_product(m[4 + i], p[1]), float_product(m[i], p[0])),
            ),
        ),
{
}

/// `Vec3A::from(Vec3)`: the same coordinates.
#[verifier::external_body]
pub(crate) fn vec3a_from_vec3(v: Vec3) -> (r: Vec3A)
    ensures
        vec3a_lanes(r) == vec3_lanes(v),
{
    Vec3A::from(v)
}

/// `Vec3::from(Vec3A)`: the same coordinates.
#[verifier::external_body]
pub(crate) fn vec3_from_vec3a(v: Vec3A) -> (r: Vec3)
    ensures
        vec3_lanes(r) == vec3a_lanes(v),
{
    Vec3::from(v)
}

/// `Vec3A::min`: coordinate by coordinate, the smaller one. Nothing is stated of a coordinate that
/// is a NaN on either side, which the SIMD instruction sets treat differently.
#[verifier::external_body]
pub(crate) fn vec3a_min(a: Vec3A, b: Vec3A) -> (r: Vec3A)
    ensures
        forall|i: int|
            0 <= i < 3 && lo(vec3a_keys(a)[i], vec3a_keys(b)[i]) is Some ==> #[trigger] vec3a_keys(
                r,
            )[i] == lo(vec3a_keys(a)[i], vec3a_keys(b)[i]),
{
    a.min(b)
}

/// `Vec3A::max`: coordinate by coordinate, the larger one. Nothing is stated of a coordinate that
/// is a NaN on either side, which the SIMD instruction sets treat differently.
#[verifier::external_body]
pub(crate) fn vec3a_max(a: Vec3A, b: Vec3A) -> (r: Vec3A)
    ensures
        forall|i: int|
            0 <= i < 3 && hi(vec3a_keys(a)[i], vec3a_keys(b)[i]) is Some ==> #[trigger] vec3a_keys(
                r,
            )[i] == hi(vec3a_keys(a)[i], vec3a_keys(b)[i]),
{
    a.max(b)
}

/// `Vec3A + Vec3A`: coordinate by coordinate, the single precision sum. Rounding to the nearest
/// number is monotone, and so is this sum.
#[verifier::external_body]
pub(crate) fn vec3a_add(a: Vec3A, b: Vec3A) -> (r: Vec3A)
    ensures
        forall|i: int|
            0 <= i < 3 ==> #[trigger] vec3a_keys(r)[i] == float_sum(
                vec3a_keys(a)[i],
                vec3a_keys(b)[i],
            ),
        forall|i: int|
            0 <= i < 3 ==> sum_is_monotone(
                vec3a_keys(a)[i],
                vec3a_keys(b)[i],
                #[trigger] vec3a_keys(r)[i],
            ),
{
    a + b
}

/// `Vec3A * Vec3A`: coordinate by coordinate, the single precision product. Rounding to the
/// nearest number is monotone, and so is this product in its second factor, up to the sign of the
/// first.
#[verifier::external_body]
pub(crate) fn vec3a_mul(a: Vec3A, b: Vec3A) -> (r: Vec3A)
    ensures
        forall|i: int|
            0 <= i < 3 ==> #[trigger] vec3a_keys(r)[i] == float_product(
                vec3a_keys(a)[i],
                vec3a_keys(b)[i],
            ),
        forall|i: int|
            0 <= i < 3 ==> product_is_monotone(
                vec3a_keys(a)[i],
                vec3a_keys(b)[i],
                #[trigger] vec3a_keys(r)[i],
            ),
{
    a * b
}

/// `Vec3A::splat` of one coordinate of `v`: that coordinate in all three places.
#[verifier::external_body]
pub(crate) fn vec3a_splat(v: Vec3, axis: usize) -> (r: Vec3A)
    requires
        axis < 3,
    ensures
        forall|i: int| 0 <= i < 3 ==> #[trigger] vec3a_lanes(r)[i] == vec3_lanes(v)[axis as int],
{
    Vec3A::splat(v[axis])
}

/// `Vec3A::MAX`: the largest finite number in all three places.
#[verifier::external_body]
pub(crate) fn vec3a_max_value() -> (r: Vec3A)
    ensures
        forall|i: int| 0 <= i < 3 ==> #[trigger] vec3a_lanes(r)[i] == MAX_BITS,
{
    Vec3A::MAX
}

/// `Vec3A::MIN`: the smallest finite number in all three places.
#[verifier::external_body]
pub(crate) fn vec3a_min_value() -> (r: Vec3A)
    ensures
        forall|i: int| 0 <= i < 3 ==> #[trigger] vec3a_lanes(r)[i] == MAX_BITS + SIGN_BIT,
{
    Vec3A::MIN
}

/// The bit pattern of the field `x` of a `Vec3A`.
#[verifier::external_body]
pub(crate) fn vec3a_x_bits(v: Vec3A) -> (r: u32)
    ensures
        r == vec3a_lanes(v)[0],
{
    v.x.to_bits()
}

/// `Aabb3d::merge`: the smaller corner coordinates and the larger ones. As with `Vec3A::min` and
/// `Vec3A::max`, nothing is stated of a coordinate that is a NaN on either side.
#[verifier::external_body]
pub(crate) fn aabb3d_merge(a: &Aabb3d, b: &Aabb3d) -> (r: Aabb3d)
    ensures
        forall|i: int|
            0 <= i < 3 && lo(vec3a_keys(a.min)[i], vec3a_keys(b.min)[i]) is Some
                ==> #[trigger] vec3a_keys(r.min)[i] == lo(
                vec3a_keys(a.min)[i],
                vec3a_keys(b.min)[i],
            ),
        forall|i: int|
            0 <= i < 3 && hi(vec3a_keys(a.max)[i], vec3a_keys(b.max)[i]) is Some
                ==> #[trigger] vec3a_keys(r.max)[i] == hi(
                vec3a_keys(a.max)[i],
                vec3a_keys(b.max)[i],
            ),
{
    a.merge(b)
}

/// `Mat4::transform_point3`: the point multiplied by the matrix, column by column. The matrix is
/// taken to be affine; its last row is not looked at (unless `glam` is built with its
/// `glam_assert` feature, which this crate leaves off).
#[verifier::external_body]
pub(crate) fn mat4_transform_point3(m: &Mat4, p: Vec3) -> (r: Vec3)
    ensures
        vec3_keys(r) == point_transformed(keys(mat4_lanes(*m), 16), vec3_keys(p)),
{
    m.transform_point3(p)
}

/// `Affine3A * Affine3A`: the transform that applies `b` and then `a`.
#[verifier::external_body]
pub(crate) fn affine_mul(a: Affine3A, b: Affine3A) -> (r: Affine3A)
    ensures
        affine_keys(r) == affine_product(affine_keys(a), affine_keys(b)),
{
    a * b
}

/// `Affine3A::inverse`: an inverse computed from the elements alone. Of a transform that is not
/// invertible the result is some transform, which is of no use.
#[verifier::external_body]
pub(crate) fn affine_invert(a: &Affine3A) -> (r: Affine3A)
    ensures
        affine_keys(r) == affine_inverse(affine_lanes(*a)),
{
    a.inverse()
}

/// `GlobalTransform::affine`: the affine transform that it holds.
#[verifier::external_body]
pub(crate) fn global_transform_affine(g: &GlobalTransform) -> (r: Affine3A)
    ensures
        affine_lanes(r) == global_transform_lanes(*g),
{
    g.affine()
}

/// `Aabb::from_min_max`: half the sum and half the difference of the corners. The difference of a
/// number and one that is not above it is not negative, and neither is half of it.
#[verifier::external_body]
pub(crate) fn aabb_from_min_max(min: Vec3, max: Vec3) -> (r: Aabb)
    ensures
        forall|i: int|
            0 <= i < 3 ==> #[trigger] vec3a_keys(r.center)[i] == float_product(
                key(HALF_BITS),
                float_sum(vec3_keys(max)[i], vec3_keys(min)[i]),
            ),
        forall|i: int|
            0 <= i < 3 ==> #[trigger] vec3a_keys(r.half_extents)[i] == float_product(
                key(HALF_BITS),
                float_difference(vec3_keys(max)[i], vec3_keys(min)[i]),
            ),
        forall|i: int|
            0 <= i < 3 && le(vec3_keys(min)[i], vec3_keys(max)[i]) && is_number(
                vec3a_keys(r.half_extents)[i],
            ) ==> le(Some(0), #[trigger] vec3a_keys(r.half_extents)[i]),
{
    Aabb::from_min_max(min, max)
}

} // verus!
