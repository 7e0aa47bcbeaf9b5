//! Boxes: growing them by points and carrying them through affine transforms.
use bevy_math::bounding::Aabb3d;
use bevy_math::{Affine3A, Vec3, Vec3A};
use vstd::prelude::*;
use vstd::std_specs::convert::FromSpecImpl;

use crate::float::{
    all_numbers, float_product, float_sum, hi, is_number, le, lo, Key,
};
use crate::math::{
    affine_keys, affine_product, vec3_from_vec3a, vec3_keys, vec3_lanes, vec3a_add,
    vec3a_from_vec3, vec3a_keys, vec3a_lanes, vec3a_max, vec3a_min, vec3a_mul, vec3a_splat,
};

verus! {

/// An `Aabb3d` without padding.
#[derive(Copy, Clone, Debug)]
pub struct PackedAabb3d {
    pub min: Vec3,
    pub max: Vec3,
}

impl PackedAabb3d {
    /// Whether the point with these coordinates lies in the box.
    pub open spec fn holds(self, p: Seq<Key>) -> bool {
        in_box(vec3_keys(self.min), vec3_keys(self.max), p)
    }

    /// Whether it has the same corners as `aabb`.
    pub open spec fn packs(self, aabb: Aabb3d) -> bool {
        &&& vec3_lanes(self.min) == vec3a_lanes(aabb.min)
        &&& vec3_lanes(self.max) == vec3a_lanes(aabb.max)
    }

    /// Whether row `i` of the matrix of the transform `a` meets the corners without a NaN.
    pub open spec fn products_are_numbers(self, a: Seq<Key>, i: int) -> bool {
        corner_products_are_numbers(vec3_keys(self.min), vec3_keys(self.max), a, i)
    }
}

impl From<PackedAabb3d> for Aabb3d {
    fn from(value: PackedAabb3d) -> (r: Self)
        ensures
            value.packs(r),
            vec3a_lanes(r.min) == vec3_lanes(value.min),
            vec3a_lanes(r.max) == vec3_lanes(value.max),
    {
        Aabb3d { min: vec3a_from_vec3(value.min), max: vec3a_from_vec3(value.max) }
    }
}

/// The conversion is described by the lanes, not by a spec function of its result.
impl FromSpecImpl<PackedAabb3d> for Aabb3d {
    open spec fn obeys_from_spec() -> bool {
        false
    }

    open spec fn from_spec(value: PackedAabb3d) -> Self {
        choose|r: Aabb3d| value.packs(r)
    }
}

impl From<Aabb3d> for PackedAabb3d {
    fn from(value: Aabb3d) -> (r: Self)
        ensures
            r.packs(value),
            vec3_lanes(r.min) == vec3a_lanes(value.min),
            vec3_lanes(r.max) == vec3a_lanes(value.max),
    {
        PackedAabb3d { min: vec3_from_vec3a(value.min), max: vec3_from_vec3a(value.max) }
    }
}

/// The conversion is described by the lanes, not by a spec function of its result.
impl FromSpecImpl<Aabb3d> for PackedAabb3d {
    open spec fn obeys_from_spec() -> bool {
        false
    }

    open spec fn from_spec(value: Aabb3d) -> Self {
        choose|r: PackedAabb3d| r.packs(value)
    }
}

/// Packing a box and unpacking it again gives back its corners, and so does unpacking and packing.
pub proof fn law_packing_keeps_corners(
    aabb: Aabb3d,
    packed: PackedAabb3d,
    unpacked: Aabb3d,
    repacked: PackedAabb3d,
)
    requires
        packed.packs(aabb),
        packed.packs(unpacked),
        repacked.packs(unpacked),
    ensures
        vec3_lanes(packed.min) == vec3a_lanes(aabb.min),
        vec3_lanes(packed.max) == vec3a_lanes(aabb.max),
        vec3a_lanes(unpacked.min) == vec3a_lanes(aabb.min),
        vec3a_lanes(unpacked.max) == vec3a_lanes(aabb.max),
        vec3_lanes(repacked.min) == vec3_lanes(packed.min),
        vec3_lanes(repacked.max) == vec3_lanes(packed.max),
{
}

/// The smallest box that contains `aabb` and `point`; the box of `point` alone where there is no
/// `aabb`.
pub fn merge(aabb: Option<Aabb3d>, point: Vec3A) -> (r: Aabb3d)
    ensures
        aabb is None ==> r.min == point && r.max == point,
        aabb matches Some(a) ==> forall|i: int|
            0 <= i < 3 && lo(vec3a_keys(point)[i], vec3a_keys(a.min)[i]) is Some
                ==> #[trigger] vec3a_keys(r.min)[i] == lo(
                vec3a_keys(point)[i],
                vec3a_keys(a.min)[i],
            ),
        aabb matches Some(a) ==> forall|i: int|
            0 <= i < 3 && hi(vec3a_keys(point)[i], vec3a_keys(a.max)[i]) is Some
                ==> #[trigger] vec3a_keys(r.max)[i] == hi(
                vec3a_keys(point)[i],
                vec3a_keys(a.max)[i],
            ),
        forall|i: int|
            0 <= i < 3 && is_number(vec3a_keys(point)[i]) && (aabb matches Some(a) ==> is_number(
                vec3a_keys(a.min)[i],
            ) && is_number(vec3a_keys(a.max)[i])) ==> {
                &&& le(vec3a_keys(r.min)[i], #[trigger] vec3a_keys(point)[i])
                &&& le(vec3a_keys(point)[i], vec3a_keys(r.max)[i])
                &&& aabb matches Some(a) ==> le(vec3a_keys(r.min)[i], vec3a_keys(a.min)[i]) && le(
                    vec3a_keys(a.max)[i],
                    vec3a_keys(r.max)[i],
                )
            },
{
    match aabb {
        Some(aabb) => Aabb3d { min: vec3a_min(point, aabb.min), max: vec3a_max(point, aabb.max) },
        None => Aabb3d { min: point, max: point },
    }
}

/// Whether the products of row `i` of the matrix of `a` with the coordinates of the two corners
/// are numbers. Where the elements and coordinates are finite, they are.
pub open spec fn corner_products_are_numbers(
    min: Seq<Key>,
    max: Seq<Key>,
    a: Seq<Key>,
    i: int,
) -> bool {
    forall|c: int|
        #![trigger min[c]]
        #![trigger max[c]]
        0 <= c < 3 ==> is_number(float_product(a[3 * c + i], min[c])) && is_number(
            float_product(a[3 * c + i], max[c]),
        )
}

/// Coordinate `i` of the lower corner of the box from `min` to `max` transformed by `a`: the
/// translation, plus for each column the smaller of its products with the two corners.
/// `None` where a NaN turns up among the products.
pub open spec fn transformed_min(min: Seq<Key>, max: Seq<Key>, a: Seq<Key>, i: int) -> Key {
    if corner_products_are_numbers(min, max, a, i) {
        float_sum(
            float_sum(
                float_sum(a[9 + i], lo(float_product(a[i], min[0]), float_product(a[i], max[0]))),
                lo(float_product(a[3 + i], min[1]), float_product(a[3 + i], max[1])),
            ),
            lo(float_product(a[6 + i], min[2]), float_product(a[6 + i], max[2])),
        )
    } else {
        None
    }
}

/// Coordinate `i` of the upper corner of the box from `min` to `max` transformed by `a`: as
/// [`transformed_min`], with the larger products.
pub open spec fn transformed_max(min: Seq<Key>, max: Seq<Key>, a: Seq<Key>, i: int) -> Key {
    if corner_products_are_numbers(min, max, a, i) {
        float_sum(
            float_sum(
                float_sum(a[9 + i], hi(float_product(a[i], min[0]), float_product(a[i], max[0]))),
                hi(float_product(a[3 + i], min[1]), float_product(a[3 + i], max[1])),
            ),
            hi(float_product(a[6 + i], min[2]), float_product(a[6 + i], max[2])),
        )
    } else {
        None
    }
}

/// Whether the point `p` lies in the box from `min` to `max`.
pub open spec fn in_box(min: Seq<Key>, max: Seq<Key>, p: Seq<Key>) -> bool {
    forall|c: int| 0 <= c < 3 ==> le(min[c], #[trigger] p[c]) && le(p[c], max[c])
}

/// Coordinate `i` of the point `p` transformed by `a`, summed up from the translation on, one
/// column after the other: the sums after each column.
pub open spec fn image_sums(a: Seq<Key>, p: Seq<Key>, i: int) -> Seq<Key> {
    let x = float_sum(a[9 + i], float_product(a[i], p[0]));
    let y = float_sum(x, float_product(a[3 + i], p[1]));
    let z = float_sum(y, float_product(a[6 + i], p[2]));
    seq![x, y, z]
}

/// Whether coordinate `i` of the point `p` transformed by `a` comes about without a NaN.
pub open spec fn image_is_number(a: Seq<Key>, p: Seq<Key>, i: int) -> bool {
    &&& is_number(float_product(a[i], p[0]))
    &&& is_number(float_product(a[3 + i], p[1]))
    &&& is_number(float_product(a[6 + i], p[2]))
    &&& all_numbers(image_sums(a, p, i))
}

/// Whether `r` has the corners of the box `input` transformed by `a`, on each axis on which the
/// products are numbers.
pub open spec fn is_transformed(input: PackedAabb3d, a: Seq<Key>, r: Aabb3d) -> bool {
    forall|i: int|
        #![trigger vec3a_keys(r.min)[i]]
        #![trigger vec3a_keys(r.max)[i]]
        0 <= i < 3 && input.products_are_numbers(a, i) ==> {
            &&& vec3a_keys(r.min)[i] == transformed_min(
                vec3_keys(input.min),
                vec3_keys(input.max),
                a,
                i,
            )
            &&& vec3a_keys(r.max)[i] == transformed_max(
                vec3_keys(input.min),
                vec3_keys(input.max),
                a,
                i,
            )
        }
}

/// Whether the corners of the box `input` transformed by `a`, and those of `r`, come about without
/// a NaN on axis `i`.
pub open spec fn axis_is_number(input: PackedAabb3d, a: Seq<Key>, r: Aabb3d, i: int) -> bool {
    &&& input.products_are_numbers(a, i)
    &&& is_number(vec3a_keys(r.min)[i])
    &&& is_number(vec3a_keys(r.max)[i])
}

/// Whether every point of `input`, transformed by `a`, lies in `r`, on each axis on which no NaN
/// turns up.
pub open spec fn contains_images(input: PackedAabb3d, a: Seq<Key>, r: Aabb3d) -> bool {
    forall|p: Seq<Key>, i: int|
        0 <= i < 3 && axis_is_number(input, a, r, i) && input.holds(p) && image_is_number(a, p, i)
            ==> le(vec3a_keys(r.min)[i], (#[trigger] image_sums(a, p, i))[2]) && le(
            image_sums(a, p, i)[2],
            vec3a_keys(r.max)[i],
        )
}

/// A box that contains the transformed box `input`.
///
/// The algorithm is that of "Transforming Axis-Aligned Bounding Boxes", James Arvo, Graphics Gems
/// (1990). The lower corner is never above the upper one, and every point of `input`, transformed
/// with the same order of additions, lies in the result; all of this where no NaN turns up.
pub fn aabb_transformed_by(input: PackedAabb3d, transform: Affine3A) -> (r: Aabb3d)
    ensures
        is_transformed(input, affine_keys(transform), r),
        forall|i: int|
            0 <= i < 3 && axis_is_number(input, affine_keys(transform), r, i) ==> le(
                #[trigger] vec3a_keys(r.min)[i],
                vec3a_keys(r.max)[i],
            ),
        contains_images(input, affine_keys(transform), r),
{
    let rs = transform.matrix3;
    let t = transform.translation;

    let e_x = vec3a_mul(rs.x_axis, vec3a_splat(input.min, 0));
    let e_y = vec3a_mul(rs.y_axis, vec3a_splat(input.min, 1));
    let e_z = vec3a_mul(rs.z_axis, vec3a_splat(input.min, 2));

    let f_x = vec3a_mul(rs.x_axis, vec3a_splat(input.max, 0));
    let f_y = vec3a_mul(rs.y_axis, vec3a_splat(input.max, 1));
    let f_z = vec3a_mul(rs.z_axis, vec3a_splat(input.max, 2));

    let min_x = vec3a_min(e_x, f_x);
    let min_y = vec3a_min(e_y, f_y);
    let min_z = vec3a_min(e_z, f_z);

    let max_x = vec3a_max(e_x, f_x);
    let max_y = vec3a_max(e_y, f_y);
    let max_z = vec3a_max(e_z, f_z);

    let t_min_x = vec3a_add(t, min_x);
    let t_min_xy = vec3a_add(t_min_x, min_y);
    let min = vec3a_add(t_min_xy, min_z);

    let t_max_x = vec3a_add(t, max_x);
    let t_max_xy = vec3a_add(t_max_x, max_y);
    let max = vec3a_add(t_max_xy, max_z);

    proof {
        let a = affine_keys(transform);
        assert forall|i: int| 0 <= i < 3 implies {
            &&& #[trigger] a[i] == vec3a_keys(rs.x_axis)[i]
            &&& a[3 + i] == vec3a_keys(rs.y_axis)[i]
            &&& a[6 + i] == vec3a_keys(rs.z_axis)[i]
            &&& a[9 + i] == vec3a_keys(t)[i]
        } by {
            assert((3 + i) / 3 == 1 && (3 + i) % 3 == i);
            assert((6 + i) / 3 == 2 && (6 + i) % 3 == i);
            assert((9 + i) / 3 == 3 && (9 + i) % 3 == i);
        }
    }

    Aabb3d { min, max }
}

/// The point `p` transformed by `a`.
pub open spec fn image(a: Seq<Key>, p: Seq<Key>) -> Seq<Key> {
    Seq::new(3, |i: int| image_sums(a, p, i)[2])
}

/// Whether `p` is one of the eight corners of a box.
pub open spec fn is_corner(input: PackedAabb3d, p: Seq<Key>) -> bool {
    forall|c: int|
        0 <= c < 3 ==> #[trigger] p[c] == vec3_keys(input.min)[c] || p[c] == vec3_keys(
            input.max,
        )[c]
}

/// Whether on axis `i` nothing is lost to rounding in the corners of a box that are transformed by
/// `s` and then by `t`: they come out as by the product of the two, and without a NaN.
pub open spec fn composes_exactly(
    input: PackedAabb3d,
    s: Seq<Key>,
    t: Seq<Key>,
    i: int,
) -> bool {
    forall|p: Seq<Key>| #[trigger]
        is_corner(input, p) ==> {
            &&& forall|c: int| 0 <= c < 3 ==> #[trigger] image_is_number(s, p, c)
            &&& image_is_number(t, image(s, p), i)
            &&& image_sums(t, image(s, p), i)[2] == image_sums(affine_product(t, s), p, i)[2]
        }
}

/// The extremes of a transformed box are those of its corners.
proof fn lemma_corners_are_extreme(input: PackedAabb3d, a: Seq<Key>, i: int) -> (r: (
    Seq<Key>,
    Seq<Key>,
))
    requires
        0 <= i < 3,
        input.products_are_numbers(a, i),
    ensures
        is_corner(input, r.0),
        is_corner(input, r.1),
        transformed_min(vec3_keys(input.min), vec3_keys(input.max), a, i) == image_sums(
            a,
            r.0,
            i,
        )[2],
        transformed_max(vec3_keys(input.min), vec3_keys(input.max), a, i) == image_sums(
            a,
            r.1,
            i,
        )[2],
{
    let min = vec3_keys(input.min);
    let max = vec3_keys(input.max);
    let low = Seq::new(
        3,
        |c: int|
            if le(float_product(a[3 * c + i], min[c]), float_product(a[3 * c + i], max[c])) {
                min[c]
            } else {
                max[c]
            },
    );
    let high = Seq::new(
        3,
        |c: int|
            if le(float_product(a[3 * c + i], max[c]), float_product(a[3 * c + i], min[c])) {
                min[c]
            } else {
                max[c]
            },
    );
    assert forall|c: int| 0 <= c < 3 implies {
        &&& float_product(a[3 * c + i], #[trigger] low[c]) == lo(
            float_product(a[3 * c + i], min[c]),
            float_product(a[3 * c + i], max[c]),
        )
        &&& float_product(a[3 * c + i], high[c]) == hi(
            float_product(a[3 * c + i], min[c]),
            float_product(a[3 * c + i], max[c]),
        )
    } by {
        assert(is_number(float_product(a[3 * c + i], min[c])));
    }
    assert(low[0] == min[0] || low[0] == max[0]);
    assert(low[1] == min[1] || low[1] == max[1]);
    assert(low[2] == min[2] || low[2] == max[2]);
    (low, high)
}

/// Where nothing is lost to rounding, transforming a box once by the product of two transforms is
/// never looser than transforming it by one after the other.
///
/// `first` is `input` transformed by `s`, `packed` is `first` packed, `two` is `packed` transformed
/// by `t`, and `one` is `input` transformed by the product.
pub proof fn law_one_step_is_never_looser(
    input: PackedAabb3d,
    s: Seq<Key>,
    t: Seq<Key>,
    first: Aabb3d,
    packed: PackedAabb3d,
    two: Aabb3d,
    one: Aabb3d,
    i: int,
)
    requires
        0 <= i < 3,
        forall|c: int|
            0 <= c < 3 ==> le(#[trigger] vec3_keys(input.min)[c], vec3_keys(input.max)[c]),
        contains_images(input, s, first),
        packed.packs(first),
        contains_images(packed, t, two),
        is_transformed(input, affine_product(t, s), one),
        forall|c: int| 0 <= c < 3 ==> #[trigger] axis_is_number(input, s, first, c),
        axis_is_number(packed, t, two, i),
        axis_is_number(input, affine_product(t, s), one, i),
        composes_exactly(input, s, t, i),
    ensures
        le(vec3a_keys(two.min)[i], vec3a_keys(one.min)[i]),
        le(vec3a_keys(one.max)[i], vec3a_keys(two.max)[i]),
{
    let (low, high) = lemma_corners_are_extreme(input, affine_product(t, s), i);
    lemma_corner_in_two_steps(input, s, t, first, packed, two, i, low);
    lemma_corner_in_two_steps(input, s, t, first, packed, two, i, high);
}

/// A corner that is transformed in two steps lies in the box that was transformed in two steps.
proof fn lemma_corner_in_two_steps(
    input: PackedAabb3d,
    s: Seq<Key>,
    t: Seq<Key>,
    first: Aabb3d,
    packed: PackedAabb3d,
    two: Aabb3d,
    i: int,
    p: Seq<Key>,
)
    requires
        0 <= i < 3,
        forall|c: int|
            0 <= c < 3 ==> le(#[trigger] vec3_keys(input.min)[c], vec3_keys(input.max)[c]),
        contains_images(input, s, first),
        packed.packs(first),
        contains_images(packed, t, two),
        forall|c: int| 0 <= c < 3 ==> #[trigger] axis_is_number(input, s, first, c),
        axis_is_number(packed, t, two, i),
        composes_exactly(input, s, t, i),
        is_corner(input, p),
    ensures
        le(vec3a_keys(two.min)[i], image_sums(affine_product(t, s), p, i)[2]),
        le(image_sums(affine_product(t, s), p, i)[2], vec3a_keys(two.max)[i]),
{
    assert(input.holds(p)) by {
        assert forall|c: int| 0 <= c < 3 implies le(vec3_keys(input.min)[c], #[trigger] p[c]) && le(
            p[c],
            vec3_keys(input.max)[c],
        ) by {
            assert(le(vec3_keys(input.min)[c], vec3_keys(input.max)[c]));
        }
    }
    let q = image(s, p);
    assert(packed.holds(q)) by {
        assert forall|c: int| 0 <= c < 3 implies le(vec3_keys(packed.min)[c], #[trigger] q[c]) && le(
            q[c],
            vec3_keys(packed.max)[c],
        ) by {
            assert(axis_is_number(input, s, first, c));
            assert(image_is_number(s, p, c));
            assert(q[c] == image_sums(s, p, c)[2]);
        }
    }
    assert(image_is_number(t, q, i));
    assert(image_sums(t, q, i)[2] == image_sums(affine_product(t, s), p, i)[2]);
}

/// The corners of a transformed box are, on each axis, the translation plus the three columns, each
/// by the coordinate of one of the two corners of the box that makes it smallest or largest. What is
/// returned are the two points, made up of coordinates of the corners, whose images these are.
///
/// It holds wherever the six products on the axis are numbers.
pub proof fn law_corners_are_images_of_corners(
    input: PackedAabb3d,
    transform: Affine3A,
    r: Aabb3d,
    i: int,
) -> (points: (Seq<Key>, Seq<Key>))
    requires
        is_transformed(input, affine_keys(transform), r),
        0 <= i < 3,
        forall|c: int|
            #![trigger vec3_keys(input.min)[c]]
            0 <= c < 3 ==> {
                &&& is_number(
                    float_product(affine_keys(transform)[3 * c + i], vec3_keys(input.min)[c]),
                )
                &&& is_number(
                    float_product(affine_keys(transform)[3 * c + i], vec3_keys(input.max)[c]),
                )
            },
    ensures
        ({
            let a = affine_keys(transform);
            let min = vec3_keys(input.min);
            let max = vec3_keys(input.max);
            let (p, q) = points;
            &&& p[0] == min[0] || p[0] == max[0]
            &&& p[1] == min[1] || p[1] == max[1]
            &&& p[2] == min[2] || p[2] == max[2]
            &&& q[0] == min[0] || q[0] == max[0]
            &&& q[1] == min[1] || q[1] == max[1]
            &&& q[2] == min[2] || q[2] == max[2]
            &&& le(float_product(a[i], p[0]), float_product(a[i], min[0]))
            &&& le(float_product(a[i], p[0]), float_product(a[i], max[0]))
            &&& le(float_product(a[3 + i], p[1]), float_product(a[3 + i], min[1]))
            &&& le(float_product(a[3 + i], p[1]), float_product(a[3 + i], max[1]))
            &&& le(float_product(a[6 + i], p[2]), float_product(a[6 + i], min[2]))
            &&& le(float_product(a[6 + i], p[2]), float_product(a[6 + i], max[2]))
            &&& le(float_product(a[i], min[0]), float_product(a[i], q[0]))
            &&& le(float_product(a[i], max[0]), float_product(a[i], q[0]))
            &&& le(float_product(a[3 + i], min[1]), float_product(a[3 + i], q[1]))
            &&& le(float_product(a[3 + i], max[1]), float_product(a[3 + i], q[1]))
            &&& le(float_product(a[6 + i], min[2]), float_product(a[6 + i], q[2]))
            &&& le(float_product(a[6 + i], max[2]), float_product(a[6 + i], q[2]))
            &&& vec3a_keys(r.min)[i] == float_sum(
                float_sum(
                    float_sum(a[9 + i], float_product(a[i], p[0])),
                    float_product(a[3 + i], p[1]),
                ),
                float_product(a[6 + i], p[2]),
            )
            &&& vec3a_keys(r.max)[i] == float_sum(
                float_sum(
                    float_sum(a[9 + i], float_product(a[i], q[0])),
                    float_product(a[3 + i], q[1]),
                ),
                float_product(a[6 + i], q[2]),
            )
        }),
{
    let a = affine_keys(transform);
    let min = vec3_keys(input.min);
    let max = vec3_keys(input.max);
    assert(input.products_are_numbers(a, i)) by {
        assert forall|c: int|
            #![trigger min[c]]
            #![trigger max[c]]
            0 <= c < 3 implies is_number(float_product(a[3 * c + i], min[c])) && is_number(
            float_product(a[3 * c + i], max[c]),
        ) by {
            assert(is_number(float_product(a[3 * c + i], vec3_keys(input.min)[c])));
        }
    }
    assert(is_number(float_product(a[3 * 0 + i], min[0])));
    assert(is_number(float_product(a[3 * 1 + i], min[1])));
    assert(is_number(float_product(a[3 * 2 + i], min[2])));
    let p = seq![
        if le(float_product(a[i], min[0]), float_product(a[i], max[0])) { min[0] } else { max[0] },
        if le(float_product(a[3 + i], min[1]), float_product(a[3 + i], max[1])) {
            min[1]
        } else {
            max[1]
        },
        if le(float_product(a[6 + i], min[2]), float_product(a[6 + i], max[2])) {
            min[2]
        } else {
            max[2]
        },
    ];
    let q = seq![
        if le(float_product(a[i], max[0]), float_product(a[i], min[0])) { min[0] } else { max[0] },
        if le(float_product(a[3 + i], max[1]), float_product(a[3 + i], min[1])) {
            min[1]
        } else {
            max[1]
        },
        if le(float_product(a[6 + i], max[2]), float_product(a[6 + i], min[2])) {
            min[2]
        } else {
            max[2]
        },
    ];
    (p, q)
}

/// A point of a box, carried through a transform, lies in the transformed box: the translation plus
/// the three columns, each by a coordinate of the point. It holds on each axis on which the products
/// with the corners, the corners of the result and the sums for the point are numbers.
pub proof fn law_transformed_points_are_contained(
    input: PackedAabb3d,
    transform: Affine3A,
    r: Aabb3d,
    p: Seq<Key>,
    i: int,
)
    requires
        contains_images(input, affine_keys(transform), r),
        0 <= i < 3,
        forall|c: int|
            0 <= c < 3 ==> {
                &&& le(vec3_keys(input.min)[c], #[trigger] p[c])
                &&& le(p[c], vec3_keys(input.max)[c])
                &&& is_number(
                    float_product(affine_keys(transform)[3 * c + i], vec3_keys(input.min)[c]),
                )
                &&& is_number(
                    float_product(affine_keys(transform)[3 * c + i], vec3_keys(input.max)[c]),
                )
                &&& is_number(float_product(affine_keys(transform)[3 * c + i], p[c]))
            },
        is_number(vec3a_keys(r.min)[i]),
        is_number(vec3a_keys(r.max)[i]),
        ({
            let a = affine_keys(transform);
            let x = float_sum(a[9 + i], float_product(a[i], p[0]));
            let y = float_sum(x, float_product(a[3 + i], p[1]));
            is_number(x) && is_number(y) && is_number(
                float_sum(y, float_product(a[6 + i], p[2])),
            )
        }),
    ensures
        ({
            let a = affine_keys(transform);
            let image = float_sum(
                float_sum(
                    float_sum(a[9 + i], float_product(a[i], p[0])),
                    float_product(a[3 + i], p[1]),
                ),
                float_product(a[6 + i], p[2]),
            );
            le(vec3a_keys(r.min)[i], image) && le(image, vec3a_keys(r.max)[i])
        }),
{
    let a = affine_keys(transform);
    assert(input.products_are_numbers(a, i)) by {
        assert forall|c: int|
            #![trigger vec3_keys(input.min)[c]]
            #![trigger vec3_keys(input.max)[c]]
            0 <= c < 3 implies is_number(float_product(a[3 * c + i], vec3_keys(input.min)[c]))
            && is_number(float_product(a[3 * c + i], vec3_keys(input.max)[c])) by {
            assert(le(p[c], vec3_keys(input.max)[c]));
        }
    }
    assert(is_number(float_product(a[3 * 0 + i], p[0])));
    assert(is_number(float_product(a[3 * 1 + i], p[1])));
    assert(is_number(float_product(a[3 * 2 + i], p[2])));
    assert(input.holds(p));
    assert(image_is_number(a, p, i));
    assert(image_sums(a, p, i)[2] == image_sums(a, p, i)[2]);
}

/// Where the products on an axis are numbers, the extremes of a transformed box are there: the
/// translation plus, for each column, the smaller or the larger of its two products.
pub proof fn law_extremes_start_from_the_translation(
    min: Seq<Key>,
    max: Seq<Key>,
    a: Seq<Key>,
    i: int,
)
    requires
        is_number(float_product(a[i], min[0])),
        is_number(float_product(a[i], max[0])),
        is_number(float_product(a[3 + i], min[1])),
        is_number(float_product(a[3 + i], max[1])),
        is_number(float_product(a[6 + i], min[2])),
        is_number(float_product(a[6 + i], max[2])),
    ensures
        transformed_min(min, max, a, i) == float_sum(
            float_sum(
                float_sum(a[9 + i], lo(float_product(a[i], min[0]), float_product(a[i], max[0]))),
                lo(float_product(a[3 + i], min[1]), float_product(a[3 + i], max[1])),
            ),
            lo(float_product(a[6 + i], min[2]), float_product(a[6 + i], max[2])),
        ),
        transformed_max(min, max, a, i) == float_sum(
            float_sum(
                float_sum(a[9 + i], hi(float_product(a[i], min[0]), float_product(a[i], max[0]))),
                hi(float_product(a[3 + i], min[1]), float_product(a[3 + i], max[1])),
            ),
            hi(float_product(a[6 + i], min[2]), float_product(a[6 + i], max[2])),
        ),
{
    assert(corner_products_are_numbers(min, max, a, i)) by {
        assert forall|c: int|
            #![trigger min[c]]
            #![trigger max[c]]
            0 <= c < 3 implies is_number(float_product(a[3 * c + i], min[c])) && is_number(
            float_product(a[3 * c + i], max[c]),
        ) by {
            assert(c == 0 || c == 1 || c == 2);
        }
    }
}

} // verus!
