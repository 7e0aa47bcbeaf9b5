//! The bounding box of an entity with a skinned mesh.
use bevy_camera::primitives::Aabb;
use bevy_math::bounding::Aabb3d;
use bevy_math::Affine3A;
use bevy_mesh::skinning::SkinnedMesh;
use bevy_transform::components::GlobalTransform;
use vstd::prelude::*;

use crate::aabb::{
    aabb_transformed_by, image_is_number, image_sums, transformed_max, transformed_min,
};
use crate::asset::{
    joint_points, joint_transforms, jointspace_point, law_boxes_contain_positions, SkinnedAabbAsset,
};
use crate::component::SkinnedAabb;
use crate::float::{
    float_difference, float_product, float_sum, gt, hi, is_greater, is_number, key, keys, le, lo, Key,
    HALF_BITS, MAX_BITS,
};
use crate::influence::InfluenceModel;
use crate::lookup::{
    entity_transforms, get_asset, joint_entities, readable_assets, JointTransforms,
    SkinnedAabbAssetsRef,
};
use crate::math::{
    aabb3d_merge, aabb_from_min_max, affine_inverse, affine_invert, affine_keys, affine_mul,
    affine_product, global_transform_affine, global_transform_lanes, vec3_from_vec3a,
    vec3_keys, vec3a_keys, vec3a_max_value, vec3a_min_value, vec3a_x_bits,
};
use crate::store::handle_key;

verus! {

/// The two corners of a box.
pub ghost struct BoxModel {
    pub min: Seq<Key>,
    pub max: Seq<Key>,
}

/// Box `a` of an asset, transformed by `entity_from_joint`.
pub open spec fn transformed_box(
    asset: SkinnedAabbAsset,
    a: int,
    entity_from_joint: Seq<Key>,
) -> BoxModel {
    let min = vec3_keys(asset.aabbs@[a].min);
    let max = vec3_keys(asset.aabbs@[a].max);
    BoxModel {
        min: Seq::new(3, |i: int| transformed_min(min, max, entity_from_joint, i)),
        max: Seq::new(3, |i: int| transformed_max(min, max, entity_from_joint, i)),
    }
}

/// The transform from the space of a joint to that of the entity.
pub open spec fn entity_from_joint(
    entity_from_world: Seq<Key>,
    world_from_joint: GlobalTransform,
) -> Seq<Key> {
    affine_product(entity_from_world, keys(global_transform_lanes(world_from_joint), 12))
}

/// The first `n` boxes of an asset, without those whose joint has no transform, in the space of
/// the entity.
pub open spec fn joint_boxes(
    asset: SkinnedAabbAsset,
    joints: Seq<Option<GlobalTransform>>,
    entity_from_world: Seq<Key>,
    n: int,
) -> Seq<BoxModel>
    decreases n,
{
    if n <= 0 {
        seq![]
    } else {
        let before = joint_boxes(asset, joints, entity_from_world, n - 1);
        match asset.joint_transform(n - 1, joints) {
            Some(world_from_joint) => before.push(
                transformed_box(
                    asset,
                    n - 1,
                    entity_from_joint(entity_from_world, world_from_joint),
                ),
            ),
            None => before,
        }
    }
}

/// The lower corner of the boxes taken together, on axis `i`; the largest finite number where
/// there is none below it. `None` where it depends on a NaN.
pub open spec fn union_min(boxes: Seq<BoxModel>, i: int) -> Key
    decreases boxes.len(),
{
    if boxes.len() == 0 {
        Some(MAX_BITS as int)
    } else {
        lo(union_min(boxes.drop_last(), i), boxes.last().min[i])
    }
}

/// The upper corner of the boxes taken together, on axis `i`; the smallest finite number where
/// there is none above it. `None` where it depends on a NaN.
pub open spec fn union_max(boxes: Seq<BoxModel>, i: int) -> Key
    decreases boxes.len(),
{
    if boxes.len() == 0 {
        Some(-MAX_BITS)
    } else {
        hi(union_max(boxes.drop_last(), i), boxes.last().max[i])
    }
}

/// Whether the boxes taken together have these corners, on each axis on which no NaN turns up.
pub open spec fn is_union(boxes: Seq<BoxModel>, min: Seq<Key>, max: Seq<Key>) -> bool {
    forall|i: int|
        #![trigger min[i]]
        #![trigger max[i]]
        0 <= i < 3 ==> {
            &&& union_min(boxes, i) is Some ==> min[i] == union_min(boxes, i)
            &&& union_max(boxes, i) is Some ==> max[i] == union_max(boxes, i)
        }
}

/// Whether the lower corner of each box is not above its upper corner, on each axis on which it
/// has no NaN.
pub open spec fn is_ordered(boxes: Seq<BoxModel>) -> bool {
    forall|b: int, i: int|
        0 <= b < boxes.len() && 0 <= i < 3 && boxes[b].min[i] is Some && boxes[b].max[i] is Some
            ==> le(#[trigger] boxes[b].min[i], boxes[b].max[i])
}

/// All boxes of an asset whose joint has a transform, in the space of the entity.
pub open spec fn entity_boxes(
    asset: SkinnedAabbAsset,
    joints: Seq<Option<GlobalTransform>>,
    world_from_entity: GlobalTransform,
) -> Seq<BoxModel> {
    joint_boxes(
        asset,
        joints,
        affine_inverse(global_transform_lanes(world_from_entity)),
        asset.aabbs@.len() as int,
    )
}

/// Whether `r` is the box of an entity whose joints have these boxes: none where there are no boxes;
/// else, by its centre and half extents, the smallest around them, where no NaN turns up. Its half
/// extents are not negative.
pub open spec fn is_entity_aabb(boxes: Seq<BoxModel>, r: Option<Aabb>) -> bool {
    &&& boxes.len() == 0 ==> r is None
    &&& boxes.len() > 0 && union_min(boxes, 0) is Some && union_max(boxes, 0) is Some ==> r is Some
    &&& r matches Some(aabb) ==> forall|i: int|
        #![trigger vec3a_keys(aabb.center)[i]]
        #![trigger vec3a_keys(aabb.half_extents)[i]]
        0 <= i < 3 && union_min(boxes, i) is Some && union_max(boxes, i) is Some ==> {
            &&& vec3a_keys(aabb.center)[i] == float_product(
                key(HALF_BITS),
                float_sum(union_max(boxes, i), union_min(boxes, i)),
            )
            &&& vec3a_keys(aabb.half_extents)[i] == float_product(
                key(HALF_BITS),
                float_difference(union_max(boxes, i), union_min(boxes, i)),
            )
            &&& is_number(vec3a_keys(aabb.half_extents)[i]) ==> le(
                Some(0),
                vec3a_keys(aabb.half_extents)[i],
            )
        }
}

/// The box with the given corners, by its centre and half extents. There is none where the lower
/// corner is above the upper one on the first axis: then nothing was merged into it.
pub fn aabb_from_corners(entity_aabb: Aabb3d) -> (r: Option<Aabb>)
    ensures
        r is None <==> gt(vec3a_keys(entity_aabb.min)[0], vec3a_keys(entity_aabb.max)[0]),
        r matches Some(aabb) ==> forall|i: int|
            #![trigger vec3a_keys(aabb.center)[i]]
            #![trigger vec3a_keys(aabb.half_extents)[i]]
            0 <= i < 3 ==> {
                &&& vec3a_keys(aabb.center)[i] == float_product(
                    key(HALF_BITS),
                    float_sum(vec3a_keys(entity_aabb.max)[i], vec3a_keys(entity_aabb.min)[i]),
                )
                &&& vec3a_keys(aabb.half_extents)[i] == float_product(
                    key(HALF_BITS),
                    float_difference(
                        vec3a_keys(entity_aabb.max)[i],
                        vec3a_keys(entity_aabb.min)[i],
                    ),
                )
                &&& le(vec3a_keys(entity_aabb.min)[i], vec3a_keys(entity_aabb.max)[i])
                    && is_number(vec3a_keys(aabb.half_extents)[i]) ==> le(
                    Some(0),
                    vec3a_keys(aabb.half_extents)[i],
                )
            },
{
    // If min > max then no joints were found.
    if is_greater(vec3a_x_bits(entity_aabb.min), vec3a_x_bits(entity_aabb.max)) {
        return None;
    }
    Some(aabb_from_min_max(vec3_from_vec3a(entity_aabb.min), vec3_from_vec3a(entity_aabb.max)))
}

/// Whether every point of box `a` of the asset, carried from the space of its joint to that of the
/// entity, lies between `min` and `max`, on each axis on which no NaN turns up.
pub open spec fn covers(
    boxes: Seq<BoxModel>,
    min: Seq<Key>,
    max: Seq<Key>,
    asset: SkinnedAabbAsset,
    a: int,
    m: Seq<Key>,
) -> bool {
    forall|p: Seq<Key>, i: int|
        0 <= i < 3 && asset.aabbs@[a].holds(p) && image_is_number(m, p, i) && union_min(
            boxes,
            i,
        ) is Some && union_max(boxes, i) is Some ==> le(min[i], (#[trigger] image_sums(m, p, i))[2])
            && le(image_sums(m, p, i)[2], max[i])
}

/// Whether [`covers`] holds of each of the first `n` boxes of the asset whose joint has a transform.
pub open spec fn covers_joints(
    boxes: Seq<BoxModel>,
    min: Seq<Key>,
    max: Seq<Key>,
    asset: SkinnedAabbAsset,
    joints: Seq<Option<GlobalTransform>>,
    entity_from_world: Seq<Key>,
    n: int,
) -> bool {
    forall|a: int|
        0 <= a < n ==> (#[trigger] asset.joint_transform(a, joints) matches Some(world_from_joint)
            ==> covers(
            boxes,
            min,
            max,
            asset,
            a,
            entity_from_joint(entity_from_world, world_from_joint),
        ))
}

/// The boxes of all joints that have a transform, merged in the space of the entity.
///
/// Where no joint has one, the lower corner is the largest finite number on each axis, and the
/// upper corner the smallest.
pub fn merge_joint_aabbs(
    asset: &SkinnedAabbAsset,
    joints: &JointTransforms,
    skinned_mesh: &SkinnedMesh,
    entity_from_world: Affine3A,
) -> (r: Aabb3d)
    ensures
        ({
            let transforms = joint_transforms(
                joint_entities(*skinned_mesh),
                entity_transforms(*joints),
            );
            let boxes = joint_boxes(
                *asset,
                transforms,
                affine_keys(entity_from_world),
                asset.aabbs@.len() as int,
            );
            &&& is_union(boxes, vec3a_keys(r.min), vec3a_keys(r.max))
            &&& is_ordered(boxes)
            &&& covers_joints(
                boxes,
                vec3a_keys(r.min),
                vec3a_keys(r.max),
                *asset,
                transforms,
                affine_keys(entity_from_world),
                asset.aabbs@.len() as int,
            )
        }),
{
    let num_aabbs: usize = asset.num_aabbs();
    let ghost inverse = affine_keys(entity_from_world);
    let ghost transforms = joint_transforms(
        joint_entities(*skinned_mesh),
        entity_transforms(*joints),
    );
    let mut entity_aabb = Aabb3d { min: vec3a_max_value(), max: vec3a_min_value() };
    let mut aabb_index: usize = 0;
    while aabb_index < num_aabbs
        invariant
            aabb_index <= num_aabbs,
            num_aabbs == asset.aabbs@.len(),
            affine_keys(entity_from_world) == inverse,
            transforms == joint_transforms(
                joint_entities(*skinned_mesh),
                entity_transforms(*joints),
            ),
            is_union(
                joint_boxes(*asset, transforms, inverse, aabb_index as int),
                vec3a_keys(entity_aabb.min),
                vec3a_keys(entity_aabb.max),
            ),
            is_ordered(joint_boxes(*asset, transforms, inverse, aabb_index as int)),
            covers_joints(
                joint_boxes(*asset, transforms, inverse, aabb_index as int),
                vec3a_keys(entity_aabb.min),
                vec3a_keys(entity_aabb.max),
                *asset,
                transforms,
                inverse,
                aabb_index as int,
            ),
        decreases num_aabbs - aabb_index,
    {
        let ghost before = joint_boxes(*asset, transforms, inverse, aabb_index as int);
        let ghost entity_aabb_before = entity_aabb;
        if let Some(world_from_joint) = asset.world_from_joint(aabb_index, skinned_mesh, joints) {
            let entity_from_joint_affine = affine_mul(entity_from_world, world_from_joint);
            let joint_aabb = aabb_transformed_by(asset.aabb(aabb_index), entity_from_joint_affine);

            entity_aabb = aabb3d_merge(&entity_aabb, &joint_aabb);

            proof {
                let joint_box = transformed_box(
                    *asset,
                    aabb_index as int,
                    affine_keys(entity_from_joint_affine),
                );
                let boxes = before.push(joint_box);
                assert(joint_boxes(*asset, transforms, inverse, aabb_index + 1) == boxes);
                assert(boxes.drop_last() =~= before);
                assert forall|i: int| 0 <= i < 3 implies {
                    &&& joint_box.min[i] is Some ==> #[trigger] vec3a_keys(joint_aabb.min)[i]
                        == joint_box.min[i]
                    &&& joint_box.max[i] is Some ==> vec3a_keys(joint_aabb.max)[i]
                        == joint_box.max[i]
                    &&& joint_box.min[i] is Some && joint_box.max[i] is Some ==> le(
                        joint_box.min[i],
                        joint_box.max[i],
                    )
                } by {}
                assert(is_ordered(boxes)) by {
                    assert forall|b: int, i: int|
                        0 <= b < boxes.len() && 0 <= i < 3 && boxes[b].min[i] is Some
                            && boxes[b].max[i] is Some implies le(
                        #[trigger] boxes[b].min[i],
                        boxes[b].max[i],
                    ) by {
                        if b < before.len() {
                            assert(boxes[b] == before[b]);
                        } else {
                            assert(vec3a_keys(joint_aabb.min)[i] == joint_box.min[i]);
                        }
                    }
                }
                assert forall|a: int| 0 <= a < aabb_index + 1 implies (
                #[trigger] asset.joint_transform(a, transforms) matches Some(g) ==> covers(
                    boxes,
                    vec3a_keys(entity_aabb.min),
                    vec3a_keys(entity_aabb.max),
                    *asset,
                    a,
                    entity_from_joint(inverse, g),
                )) by {
                    if let Some(g) = asset.joint_transform(a, transforms) {
                        let m = entity_from_joint(inverse, g);
                        assert forall|p: Seq<Key>, i: int|
                            0 <= i < 3 && asset.aabbs@[a].holds(p) && image_is_number(m, p, i)
                                && union_min(boxes, i) is Some && union_max(
                                boxes,
                                i,
                            ) is Some implies le(
                            vec3a_keys(entity_aabb.min)[i],
                            (#[trigger] image_sums(m, p, i))[2],
                        ) && le(image_sums(m, p, i)[2], vec3a_keys(entity_aabb.max)[i]) by {
                            if a < aabb_index {
                                assert(covers(
                                    before,
                                    vec3a_keys(entity_aabb_before.min),
                                    vec3a_keys(entity_aabb_before.max),
                                    *asset,
                                    a,
                                    m,
                                ));
                            }
                        }
                    }
                }
            }
        }
        aabb_index += 1;
    }
    entity_aabb
}

/// The corners of the boxes taken together.
pub open spec fn union_box(boxes: Seq<BoxModel>) -> BoxModel {
    BoxModel {
        min: Seq::new(3, |i: int| union_min(boxes, i)),
        max: Seq::new(3, |i: int| union_max(boxes, i)),
    }
}

/// Whether every point of the boxes of an asset whose joints have a transform lies, in the space of
/// the entity, between the corners of the boxes taken together (see [`covers_joints`]).
pub open spec fn union_covers_joints(
    asset: SkinnedAabbAsset,
    joints: Seq<Option<GlobalTransform>>,
    world_from_entity: GlobalTransform,
) -> bool {
    let boxes = entity_boxes(asset, joints, world_from_entity);
    covers_joints(
        boxes,
        union_box(boxes).min,
        union_box(boxes).max,
        asset,
        joints,
        affine_inverse(global_transform_lanes(world_from_entity)),
        asset.aabbs@.len() as int,
    )
}

/// The box of an entity with a skinned mesh, in the space of the entity, from the boxes of its
/// joints. There is none where no joint was found.
pub fn get_aabb_from_asset(
    asset: &SkinnedAabbAsset,
    joints: &JointTransforms,
    skinned_mesh: &SkinnedMesh,
    world_from_entity: &GlobalTransform,
) -> (r: Option<Aabb>)
    ensures
        is_entity_aabb(
            entity_boxes(
                *asset,
                joint_transforms(joint_entities(*skinned_mesh), entity_transforms(*joints)),
                *world_from_entity,
            ),
            r,
        ),
        union_covers_joints(
            *asset,
            joint_transforms(joint_entities(*skinned_mesh), entity_transforms(*joints)),
            *world_from_entity,
        ),
{
    let world_from_entity_affine = global_transform_affine(world_from_entity);
    if asset.num_aabbs() == 0 {
        return None;
    }
    let entity_from_world = affine_invert(&world_from_entity_affine);
    let entity_aabb = merge_joint_aabbs(asset, joints, skinned_mesh, entity_from_world);
    proof {
        let boxes = entity_boxes(
            *asset,
            joint_transforms(joint_entities(*skinned_mesh), entity_transforms(*joints)),
            *world_from_entity,
        );
        if boxes.len() > 0 {
            assert forall|i: int|
                0 <= i < 3 && union_min(boxes, i) is Some && union_max(boxes, i) is Some implies le(
                #[trigger] vec3a_keys(entity_aabb.min)[i],
                vec3a_keys(entity_aabb.max)[i],
            ) by {
                law_union_is_ordered(boxes, i);
            }
        }
    }
    aabb_from_corners(entity_aabb)
}

/// The box of an entity with a skinned mesh, in the space of the entity.
///
/// There is none where the asset of the entity was not found, or none of its joints.
pub fn get_skinned_aabb(
    component: &SkinnedAabb,
    joints: &JointTransforms,
    assets: &SkinnedAabbAssetsRef,
    skinned_mesh: &SkinnedMesh,
    world_from_entity: &GlobalTransform,
) -> (r: Option<Aabb>)
    ensures
        match readable_assets(*assets).get(handle_key(component.asset)) {
            Some(asset) => {
                let transforms = joint_transforms(
                    joint_entities(*skinned_mesh),
                    entity_transforms(*joints),
                );
                &&& is_entity_aabb(entity_boxes(asset, transforms, *world_from_entity), r)
                &&& union_covers_joints(asset, transforms, *world_from_entity)
            },
            None => r is None,
        },
{
    match get_asset(assets, &component.asset) {
        Some(asset) => get_aabb_from_asset(asset, joints, skinned_mesh, world_from_entity),
        None => None,
    }
}

/// The boxes taken together contain each of the boxes; on each axis on which no NaN turns up.
pub proof fn law_union_contains_boxes(boxes: Seq<BoxModel>, b: int, i: int)
    requires
        0 <= b < boxes.len(),
        union_min(boxes, i) is Some,
        union_max(boxes, i) is Some,
    ensures
        le(union_min(boxes, i), boxes[b].min[i]),
        le(boxes[b].max[i], union_max(boxes, i)),
    decreases boxes.len(),
{
    if b < boxes.len() - 1 {
        assert(boxes.drop_last()[b] == boxes[b]);
        law_union_contains_boxes(boxes.drop_last(), b, i);
    }
}

/// The lower corner of boxes taken together is not above the upper one; on each axis on which no
/// NaN turns up.
pub proof fn law_union_is_ordered(boxes: Seq<BoxModel>, i: int)
    requires
        boxes.len() > 0,
        is_ordered(boxes),
        0 <= i < 3,
        union_min(boxes, i) is Some,
        union_max(boxes, i) is Some,
    ensures
        le(union_min(boxes, i), union_max(boxes, i)),
{
    law_union_contains_boxes(boxes, 0, i);
    assert(le(boxes[0].min[i], boxes[0].max[i]));
}

/// What the merged boxes are for: every position that a joint with a transform moves, carried from
/// the space of that joint to that of the entity, lies between the corners of the merged boxes, on
/// each axis on which no NaN turns up.
pub proof fn law_moved_positions_are_covered(
    asset: SkinnedAabbAsset,
    influences: Seq<InfluenceModel>,
    poses: Seq<Seq<u32>>,
    k: int,
    joints: Seq<Option<GlobalTransform>>,
    entity_from_world: Seq<Key>,
    boxes: Seq<BoxModel>,
    min: Seq<Key>,
    max: Seq<Key>,
    i: int,
)
    requires
        asset.describes(influences, poses),
        0 <= k < influences.len(),
        0 <= influences[k].joint_index < poses.len(),
        influences[k].joint_index < joints.len(),
        joints[influences[k].joint_index] is Some,
        covers_joints(
            boxes,
            min,
            max,
            asset,
            joints,
            entity_from_world,
            asset.aabbs@.len() as int,
        ),
        0 <= i < 3,
        forall|p: int, c: int|
            0 <= p < joint_points(influences, poses, influences[k].joint_index).len() && 0 <= c < 3
                ==> is_number(
                #[trigger] joint_points(influences, poses, influences[k].joint_index)[p][c],
            ),
        image_is_number(
            entity_from_joint(entity_from_world, joints[influences[k].joint_index]->0),
            jointspace_point(influences[k], poses),
            i,
        ),
        union_min(boxes, i) is Some,
        union_max(boxes, i) is Some,
    ensures
        ({
            let image = image_sums(
                entity_from_joint(entity_from_world, joints[influences[k].joint_index]->0),
                jointspace_point(influences[k], poses),
                i,
            )[2];
            le(min[i], image) && le(image, max[i])
        }),
{
    let a = law_boxes_contain_positions(asset, influences, poses, k);
    assert(asset.joint_transform(a, joints) == joints[influences[k].joint_index]);
}

/// There are boxes exactly when some box of the asset has a joint with a transform.
pub proof fn law_boxes_are_those_of_found_joints(
    asset: SkinnedAabbAsset,
    joints: Seq<Option<GlobalTransform>>,
    world_from_entity: GlobalTransform,
)
    ensures
        entity_boxes(asset, joints, world_from_entity).len() > 0 <==> exists|a: int|
            0 <= a < asset.aabbs@.len() && (#[trigger] asset.joint_transform(a, joints)) is Some,
{
    lemma_joint_boxes(
        asset,
        joints,
        affine_inverse(global_transform_lanes(world_from_entity)),
        asset.aabbs@.len() as int,
    );
}

/// There are boxes among the first `n` exactly when one of them has a joint with a transform.
proof fn lemma_joint_boxes(
    asset: SkinnedAabbAsset,
    joints: Seq<Option<GlobalTransform>>,
    entity_from_world: Seq<Key>,
    n: int,
)
    ensures
        joint_boxes(asset, joints, entity_from_world, n).len() > 0 <==> exists|a: int|
            0 <= a < n && (#[trigger] asset.joint_transform(a, joints)) is Some,
    decreases n,
{
    if n > 0 {
        lemma_joint_boxes(asset, joints, entity_from_world, n - 1);
        assert(asset.joint_transform(n - 1, joints) is Some ==> exists|a: int|
            0 <= a < n && (#[trigger] asset.joint_transform(a, joints)) is Some);
    }
}

/// Whether `other` is `asset` without some boxes whose joints have no transform: `kept` are, in
/// ascending order, the boxes that it still has.
pub open spec fn lacks_missing_joints(
    asset: SkinnedAabbAsset,
    other: SkinnedAabbAsset,
    kept: Seq<int>,
    joints: Seq<Option<GlobalTransform>>,
) -> bool {
    &&& other.aabbs@.len() == kept.len()
    &&& forall|k: int|
        0 <= k < kept.len() ==> {
            &&& 0 <= #[trigger] kept[k] < asset.aabbs@.len()
            &&& other.aabbs@[k] == asset.aabbs@[kept[k]]
            &&& other.joint_of(k) == asset.joint_of(kept[k])
        }
    &&& forall|k: int, l: int| 0 <= k < l < kept.len() ==> #[trigger] kept[k] < #[trigger] kept[l]
    &&& forall|a: int|
        0 <= a < asset.aabbs@.len() && (#[trigger] asset.joint_transform(a, joints)) is Some
            ==> kept.contains(a)
}

/// Boxes whose joints are not found might as well not be there: without them the entity has the
/// same boxes, and so the same box.
pub proof fn law_missing_joints_do_not_matter(
    asset: SkinnedAabbAsset,
    other: SkinnedAabbAsset,
    kept: Seq<int>,
    joints: Seq<Option<GlobalTransform>>,
    world_from_entity: GlobalTransform,
)
    requires
        lacks_missing_joints(asset, other, kept, joints),
    ensures
        entity_boxes(other, joints, world_from_entity) == entity_boxes(
            asset,
            joints,
            world_from_entity,
        ),
{
    lemma_missing_joints(
        asset,
        other,
        kept,
        joints,
        affine_inverse(global_transform_lanes(world_from_entity)),
        asset.aabbs@.len() as int,
        kept.len() as int,
    );
}

/// The first `n` boxes of an asset, and the `m` of them that are kept, come out the same.
proof fn lemma_missing_joints(
    asset: SkinnedAabbAsset,
    other: SkinnedAabbAsset,
    kept: Seq<int>,
    joints: Seq<Option<GlobalTransform>>,
    entity_from_world: Seq<Key>,
    n: int,
    m: int,
)
    requires
        lacks_missing_joints(asset, other, kept, joints),
        0 <= n <= asset.aabbs@.len(),
        0 <= m <= kept.len(),
        forall|k: int| 0 <= k < m ==> #[trigger] kept[k] < n,
        forall|k: int| m <= k < kept.len() ==> #[trigger] kept[k] >= n,
    ensures
        joint_boxes(other, joints, entity_from_world, m) == joint_boxes(
            asset,
            joints,
            entity_from_world,
            n,
        ),
    decreases n,
{
    if n > 0 {
        if m > 0 && kept[m - 1] == n - 1 {
            lemma_missing_joints(asset, other, kept, joints, entity_from_world, n - 1, m - 1);
            assert(other.joint_transform(m - 1, joints) == asset.joint_transform(n - 1, joints));
            if let Some(world_from_joint) = asset.joint_transform(n - 1, joints) {
                let m_joint = entity_from_joint(entity_from_world, world_from_joint);
                assert(transformed_box(other, m - 1, m_joint) == transformed_box(
                    asset,
                    n - 1,
                    m_joint,
                ));
            }
        } else {
            assert forall|k: int| 0 <= k < kept.len() implies #[trigger] kept[k] != n - 1 by {
                if k < m - 1 {
                    assert(kept[k] < kept[m - 1]);
                }
            }
            assert(asset.joint_transform(n - 1, joints) is None);
            lemma_missing_joints(asset, other, kept, joints, entity_from_world, n - 1, m);
        }
    } else if m > 0 {
        assert(0 <= kept[0] < n);
    }
}

/// Only the transforms of joints that have a box matter.
pub proof fn law_joints_without_boxes_do_not_matter(
    asset: SkinnedAabbAsset,
    joints: Seq<Option<GlobalTransform>>,
    others: Seq<Option<GlobalTransform>>,
    world_from_entity: GlobalTransform,
)
    requires
        others.len() == joints.len(),
        forall|a: int, j: int|
            0 <= a < asset.aabbs@.len() && #[trigger] asset.joint_of(a) == Some(j) && 0 <= j
                < joints.len() ==> #[trigger] joints[j] == others[j],
    ensures
        entity_boxes(asset, others, world_from_entity) == entity_boxes(
            asset,
            joints,
            world_from_entity,
        ),
{
    lemma_joints_without_boxes(
        asset,
        joints,
        others,
        affine_inverse(global_transform_lanes(world_from_entity)),
        asset.aabbs@.len() as int,
    );
}

/// The first `n` boxes come out the same where their joints have the same transforms.
proof fn lemma_joints_without_boxes(
    asset: SkinnedAabbAsset,
    joints: Seq<Option<GlobalTransform>>,
    others: Seq<Option<GlobalTransform>>,
    entity_from_world: Seq<Key>,
    n: int,
)
    requires
        n <= asset.aabbs@.len(),
        others.len() == joints.len(),
        forall|a: int, j: int|
            0 <= a < asset.aabbs@.len() && #[trigger] asset.joint_of(a) == Some(j) && 0 <= j
                < joints.len() ==> #[trigger] joints[j] == others[j],
    ensures
        joint_boxes(asset, others, entity_from_world, n) == joint_boxes(
            asset,
            joints,
            entity_from_world,
            n,
        ),
    decreases n,
{
    if n > 0 {
        lemma_joints_without_boxes(asset, joints, others, entity_from_world, n - 1);
        assert(asset.joint_transform(n - 1, others) == asset.joint_transform(n - 1, joints)) by {
            if let Some(j) = asset.joint_of(n - 1) {
                if j < joints.len() {
                    assert(joints[j] == others[j]);
                }
            }
        }
    }
}

/// The boxes of the joints fix the box of the entity: there is one in both of two calls or in
/// neither, with the same centre and half extents; on each axis on which no NaN turns up.
pub proof fn law_boxes_fix_the_result(boxes: Seq<BoxModel>, r: Option<Aabb>, other: Option<Aabb>)
    requires
        is_entity_aabb(boxes, r),
        is_entity_aabb(boxes, other),
        boxes.len() > 0 ==> union_min(boxes, 0) is Some && union_max(boxes, 0) is Some,
    ensures
        r is Some <==> other is Some,
        r is Some <==> boxes.len() > 0,
        r matches Some(aabb) ==> forall|i: int|
            #![trigger vec3a_keys(aabb.center)[i]]
            #![trigger vec3a_keys(aabb.half_extents)[i]]
            0 <= i < 3 && union_min(boxes, i) is Some && union_max(boxes, i) is Some ==> {
                &&& vec3a_keys(aabb.center)[i] == vec3a_keys(other->0.center)[i]
                &&& vec3a_keys(aabb.half_extents)[i] == vec3a_keys(other->0.half_extents)[i]
            },
{
    if let (Some(aabb), Some(other)) = (r, other) {
        assert forall|i: int|
            0 <= i < 3 && union_min(boxes, i) is Some && union_max(boxes, i) is Some implies {
            &&& #[trigger] vec3a_keys(aabb.center)[i] == vec3a_keys(other.center)[i]
            &&& vec3a_keys(aabb.half_extents)[i] == vec3a_keys(other.half_extents)[i]
        } by {}
    }
}

/// Whether entity and joints of one scene are those of another, moved by the transform `t`, and
/// nothing of that is lost to rounding: each joint that has a box stands to the entity as before.
pub open spec fn moves_together(
    asset: SkinnedAabbAsset,
    t: Seq<Key>,
    joints: Seq<Option<GlobalTransform>>,
    world_from_entity: GlobalTransform,
    moved_joints: Seq<Option<GlobalTransform>>,
    moved_entity: GlobalTransform,
) -> bool {
    let entity_from_world = affine_inverse(global_transform_lanes(world_from_entity));
    let entity_from_moved_world = affine_inverse(global_transform_lanes(moved_entity));
    &&& keys(global_transform_lanes(moved_entity), 12) == affine_product(
        t,
        keys(global_transform_lanes(world_from_entity), 12),
    )
    &&& forall|a: int|
        0 <= a < asset.aabbs@.len() ==> match (#[trigger] asset.joint_transform(a, joints)) {
            Some(joint) => {
                &&& asset.joint_transform(a, moved_joints) matches Some(moved_joint)
                &&& keys(global_transform_lanes(moved_joint), 12) == affine_product(
                    t,
                    keys(global_transform_lanes(joint), 12),
                )
                &&& entity_from_joint(entity_from_moved_world, moved_joint) == entity_from_joint(
                    entity_from_world,
                    joint,
                )
            },
            None => asset.joint_transform(a, moved_joints) is None,
        }
}

/// Where nothing is lost to rounding, moving an entity together with its joints keeps its box.
pub proof fn law_moving_together_keeps_the_box(
    asset: SkinnedAabbAsset,
    t: Seq<Key>,
    joints: Seq<Option<GlobalTransform>>,
    world_from_entity: GlobalTransform,
    moved_joints: Seq<Option<GlobalTransform>>,
    moved_entity: GlobalTransform,
)
    requires
        moves_together(asset, t, joints, world_from_entity, moved_joints, moved_entity),
    ensures
        entity_boxes(asset, moved_joints, moved_entity) == entity_boxes(
            asset,
            joints,
            world_from_entity,
        ),
{
    lemma_moving_together(
        asset,
        t,
        joints,
        world_from_entity,
        moved_joints,
        moved_entity,
        asset.aabbs@.len() as int,
    );
}

/// The first `n` boxes come out the same where entity and joints move together.
proof fn lemma_moving_together(
    asset: SkinnedAabbAsset,
    t: Seq<Key>,
    joints: Seq<Option<GlobalTransform>>,
    world_from_entity: GlobalTransform,
    moved_joints: Seq<Option<GlobalTransform>>,
    moved_entity: GlobalTransform,
    n: int,
)
    requires
        moves_together(asset, t, joints, world_from_entity, moved_joints, moved_entity),
        n <= asset.aabbs@.len(),
    ensures
        joint_boxes(
            asset,
            moved_joints,
            affine_inverse(global_transform_lanes(moved_entity)),
            n,
        ) == joint_boxes(
            asset,
            joints,
            affine_inverse(global_transform_lanes(world_from_entity)),
            n,
        ),
    decreases n,
{
    if n > 0 {
        lemma_moving_together(
            asset,
            t,
            joints,
            world_from_entity,
            moved_joints,
            moved_entity,
            n - 1,
        );
        assert(asset.joint_transform(n - 1, joints) is Some <==> asset.joint_transform(
            n - 1,
            moved_joints,
        ) is Some);
    }
}

/// There is one box for each box of the asset whose joint is found, in the order of the asset, and
/// each is that box of the asset carried from the space of its own joint to that of the entity. What
/// is returned says, for each box, which one of the asset it is.
pub proof fn law_found_joints_have_their_boxes(
    asset: SkinnedAabbAsset,
    joints: Seq<Option<GlobalTransform>>,
    entity_from_world: Seq<Key>,
    n: int,
) -> (found: Seq<int>)
    requires
        0 <= n,
    ensures
        found.len() == joint_boxes(asset, joints, entity_from_world, n).len(),
        forall|b: int, c: int| 0 <= b < c < found.len() ==> #[trigger] found[b] < #[trigger] found[c],
        forall|a: int| #[trigger]
            found.contains(a) <==> {
                &&& 0 <= a < n
                &&& a < asset.aabb_index_to_joint_index@.len()
                &&& asset.aabb_index_to_joint_index@[a] < joints.len()
                &&& joints[asset.aabb_index_to_joint_index@[a] as int] is Some
            },
        forall|b: int, i: int|
            #![trigger joint_boxes(asset, joints, entity_from_world, n)[b].min[i]]
            #![trigger joint_boxes(asset, joints, entity_from_world, n)[b].max[i]]
            0 <= b < found.len() && 0 <= i < 3 ==> {
                let joint = joints[asset.aabb_index_to_joint_index@[found[b]] as int]->0;
                let m = affine_product(entity_from_world, keys(global_transform_lanes(joint), 12));
                let min = vec3_keys(asset.aabbs@[found[b]].min);
                let max = vec3_keys(asset.aabbs@[found[b]].max);
                &&& joint_boxes(asset, joints, entity_from_world, n)[b].min[i] == transformed_min(
                    min,
                    max,
                    m,
                    i,
                )
                &&& joint_boxes(asset, joints, entity_from_world, n)[b].max[i] == transformed_max(
                    min,
                    max,
                    m,
                    i,
                )
            },
    decreases n,
{
    if n == 0 {
        Seq::empty()
    } else {
        let before = law_found_joints_have_their_boxes(asset, joints, entity_from_world, n - 1);
        let boxes_before = joint_boxes(asset, joints, entity_from_world, n - 1);
        let boxes = joint_boxes(asset, joints, entity_from_world, n);
        let found = if asset.joint_transform(n - 1, joints) is Some {
            before.push(n - 1)
        } else {
            before
        };
        assert forall|b: int, c: int| 0 <= b < c < found.len() implies #[trigger] found[b]
            < #[trigger] found[c] by {
            if c < before.len() {
                assert(before[b] < before[c]);
            } else {
                assert(before.contains(before[b]));
            }
        }
        assert forall|a: int| #[trigger] found.contains(a) <==> {
            &&& 0 <= a < n
            &&& a < asset.aabb_index_to_joint_index@.len()
            &&& asset.aabb_index_to_joint_index@[a] < joints.len()
            &&& joints[asset.aabb_index_to_joint_index@[a] as int] is Some
        } by {
            if found.len() > before.len() {
                assert(found[before.len() as int] == n - 1);
                if found.contains(a) && a != n - 1 {
                    let b = choose|b: int| 0 <= b < found.len() && found[b] == a;
                    assert(before[b] == a);
                }
                if before.contains(a) {
                    let b = choose|b: int| 0 <= b < before.len() && before[b] == a;
                    assert(found[b] == a);
                }
            }
            assert(before.contains(a) <==> {
                &&& 0 <= a < n - 1
                &&& a < asset.aabb_index_to_joint_index@.len()
                &&& asset.aabb_index_to_joint_index@[a] < joints.len()
                &&& joints[asset.aabb_index_to_joint_index@[a] as int] is Some
            });
        }
        assert forall|b: int, i: int|
            #![trigger boxes[b].min[i]]
            #![trigger boxes[b].max[i]]
            0 <= b < found.len() && 0 <= i < 3 implies {
            let joint = joints[asset.aabb_index_to_joint_index@[found[b]] as int]->0;
            let m = affine_product(entity_from_world, keys(global_transform_lanes(joint), 12));
            let min = vec3_keys(asset.aabbs@[found[b]].min);
            let max = vec3_keys(asset.aabbs@[found[b]].max);
            &&& boxes[b].min[i] == transformed_min(min, max, m, i)
            &&& boxes[b].max[i] == transformed_max(min, max, m, i)
        } by {
            if b < before.len() {
                assert(boxes[b] == boxes_before[b]);
                assert(boxes_before[b].min[i] == boxes[b].min[i]);
            }
        }
        found
    }
}

/// The boxes of an entity are those of all boxes of its asset, carried there by the inverse of the
/// transform of the entity.
pub proof fn law_entity_boxes_are_relative_to_the_entity(
    asset: SkinnedAabbAsset,
    joints: Seq<Option<GlobalTransform>>,
    world_from_entity: GlobalTransform,
)
    ensures
        entity_boxes(asset, joints, world_from_entity) == joint_boxes(
            asset,
            joints,
            affine_inverse(global_transform_lanes(world_from_entity)),
            asset.aabbs@.len() as int,
        ),
{
}

/// Boxes taken together are the smallest box around them, however many there are: on axis `i` the
/// lower corner is the lowest of the lower corners, and the upper corner the highest of the upper
/// ones. What is returned are the two boxes that they are of.
///
/// It holds where the corners of all boxes are numbers on that axis. An infinite corner is cut to the
/// largest or the smallest finite number where all boxes lie beyond it.
pub proof fn law_union_is_smallest(boxes: Seq<BoxModel>, i: int) -> (reached: (int, int))
    requires
        boxes.len() > 0,
        forall|b: int|
            #![trigger boxes[b]]
            0 <= b < boxes.len() ==> is_number(boxes[b].min[i]) && is_number(boxes[b].max[i]),
    ensures
        0 <= reached.0 < boxes.len(),
        0 <= reached.1 < boxes.len(),
        forall|b: int|
            #![trigger boxes[b]]
            0 <= b < boxes.len() ==> le(boxes[reached.0].min[i], boxes[b].min[i]) && le(
                boxes[b].max[i],
                boxes[reached.1].max[i],
            ),
        union_min(boxes, i) == lo(Some(0x7f7f_ffff), boxes[reached.0].min[i]),
        union_max(boxes, i) == hi(Some(-0x7f7f_ffff), boxes[reached.1].max[i]),
        le(boxes[reached.0].min[i], Some(0x7f7f_ffff)) ==> union_min(boxes, i)
            == boxes[reached.0].min[i],
        le(Some(-0x7f7f_ffff), boxes[reached.1].max[i]) ==> union_max(boxes, i)
            == boxes[reached.1].max[i],
    decreases boxes.len(),
{
    let last = boxes.len() - 1;
    let before = boxes.drop_last();
    if boxes.len() == 1 {
        assert(boxes[0] == boxes.last());
        assert(union_min(before, i) == Some(0x7f7f_ffffint));
        assert(union_max(before, i) == Some(-0x7f7f_ffffint));
        (0, 0)
    } else {
        assert forall|b: int| #![trigger before[b]] 0 <= b < before.len() implies is_number(
            before[b].min[i],
        ) && is_number(before[b].max[i]) by {
            assert(before[b] == boxes[b]);
        }
        let (low, high) = law_union_is_smallest(before, i);
        assert(before[low] == boxes[low] && before[high] == boxes[high]);
        assert(boxes[last] == boxes.last());
        let low_now = if le(boxes[low].min[i], boxes[last].min[i]) {
            low
        } else {
            last
        };
        let high_now = if le(boxes[last].max[i], boxes[high].max[i]) {
            high
        } else {
            last
        };
        assert forall|b: int|
            #![trigger boxes[b]]
            0 <= b < boxes.len() implies le(boxes[low_now].min[i], boxes[b].min[i]) && le(
            boxes[b].max[i],
            boxes[high_now].max[i],
        ) by {
            if b < last {
                assert(before[b] == boxes[b]);
            }
        }
        (low_now, high_now)
    }
}

/// Merged boxes have the corners of the smallest box around them; where there are none, the lower
/// corner is the largest finite number and the upper corner the smallest.
pub proof fn law_merged_corners_are_smallest(
    boxes: Seq<BoxModel>,
    min: Seq<Key>,
    max: Seq<Key>,
    i: int,
) -> (reached: (int, int))
    requires
        is_union(boxes, min, max),
        0 <= i < 3,
        forall|b: int|
            #![trigger boxes[b]]
            0 <= b < boxes.len() ==> is_number(boxes[b].min[i]) && is_number(boxes[b].max[i]),
    ensures
        boxes.len() == 0 ==> min[i] == Some(0x7f7f_ffffint) && max[i] == Some(-0x7f7f_ffffint),
        boxes.len() > 0 ==> {
            &&& 0 <= reached.0 < boxes.len()
            &&& 0 <= reached.1 < boxes.len()
            &&& forall|b: int|
                #![trigger boxes[b]]
                0 <= b < boxes.len() ==> le(boxes[reached.0].min[i], boxes[b].min[i]) && le(
                    boxes[b].max[i],
                    boxes[reached.1].max[i],
                )
            &&& min[i] == lo(Some(0x7f7f_ffff), boxes[reached.0].min[i])
            &&& max[i] == hi(Some(-0x7f7f_ffff), boxes[reached.1].max[i])
        },
{
    let (m, n) = (min[i], max[i]);
    if boxes.len() == 0 {
        assert(m == union_min(boxes, i) && n == union_max(boxes, i));
        (0, 0)
    } else {
        let reached = law_union_is_smallest(boxes, i);
        assert(m == union_min(boxes, i) && n == union_max(boxes, i));
        reached
    }
}

/// The box of an entity is the smallest around the boxes of its joints, by its centre and its half
/// extents: half the sum and half the difference of the highest upper corner and the lowest lower
/// one. There is none exactly where no joint was found. What is returned are the two boxes that the
/// corners on axis `i` are of.
///
/// It holds where the corners of all boxes are numbers on axis `i`; that there is a box, where they
/// are on the first axis.
pub proof fn law_box_of_entity_is_smallest(boxes: Seq<BoxModel>, r: Option<Aabb>, i: int) -> (reached: (
    int,
    int,
))
    requires
        is_entity_aabb(boxes, r),
        0 <= i < 3,
        forall|b: int|
            #![trigger boxes[b]]
            0 <= b < boxes.len() ==> is_number(boxes[b].min[i]) && is_number(boxes[b].max[i]),
    ensures
        boxes.len() == 0 ==> r is None,
        boxes.len() > 0 && (forall|b: int|
            #![trigger boxes[b]]
            0 <= b < boxes.len() ==> is_number(boxes[b].min[0]) && is_number(boxes[b].max[0]))
            ==> r is Some,
        r matches Some(aabb) ==> {
            let lowest = lo(Some(0x7f7f_ffff), boxes[reached.0].min[i]);
            let highest = hi(Some(-0x7f7f_ffff), boxes[reached.1].max[i]);
            &&& 0 <= reached.0 < boxes.len()
            &&& 0 <= reached.1 < boxes.len()
            &&& forall|b: int|
                #![trigger boxes[b]]
                0 <= b < boxes.len() ==> le(boxes[reached.0].min[i], boxes[b].min[i]) && le(
                    boxes[b].max[i],
                    boxes[reached.1].max[i],
                )
            &&& vec3a_keys(aabb.center)[i] == float_product(
                Some(0x3f00_0000),
                float_sum(highest, lowest),
            )
            &&& vec3a_keys(aabb.half_extents)[i] == float_product(
                Some(0x3f00_0000),
                float_difference(highest, lowest),
            )
            &&& is_number(vec3a_keys(aabb.half_extents)[i]) ==> le(
                Some(0),
                vec3a_keys(aabb.half_extents)[i],
            )
        },
{
    if boxes.len() > 0 {
        if forall|b: int|
            #![trigger boxes[b]]
            0 <= b < boxes.len() ==> is_number(boxes[b].min[0]) && is_number(boxes[b].max[0]) {
            law_union_is_smallest(boxes, 0);
        }
        let reached = law_union_is_smallest(boxes, i);
        if let Some(aabb) = r {
            assert(vec3a_keys(aabb.center)[i] == float_product(
                key(HALF_BITS),
                float_sum(union_max(boxes, i), union_min(boxes, i)),
            ));
        }
        reached
    } else {
        (0, 0)
    }
}

/// The corners of boxes taken together are those on each axis.
pub proof fn law_union_corners_come_by_axis(boxes: Seq<BoxModel>, i: int)
    requires
        0 <= i < 3,
    ensures
        union_box(boxes).min[i] == union_min(boxes, i),
        union_box(boxes).max[i] == union_max(boxes, i),
{
}

} // verus!
