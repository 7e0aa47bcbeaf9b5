//! That the box of an entity contains its vertices.
//!
//! A vertex is drawn at the mean, by their weights, of its images under the joints that move it. Of
//! that mean only this matters here: where no weight is negative it lies, on each axis, between the
//! lowest and the highest of the images.
use bevy_camera::primitives::Aabb;
use bevy_mesh::Mesh;
use bevy_transform::components::GlobalTransform;
use vstd::prelude::*;

use crate::aabb::{image_is_number, image_sums};
use crate::asset::{joint_points, jointspace_point, skin_is_valid, SkinnedAabbAsset};
use crate::entity::{
    covers_joints, entity_boxes, entity_from_joint, is_entity_aabb,
    law_moved_positions_are_covered, union_box, union_covers_joints, union_max, union_min, BoxModel,
};
use crate::float::{float_difference, float_sum, is_number, le, Key};
use crate::influence::{
    has_weight, influence_at, lemma_influence_has_slot, lemma_joint_indices_are_small,
    mesh_influences, mesh_skin, InfluenceModel, SkinModel, MAX_INFLUENCES,
};
use crate::math::{affine_inverse, global_transform_lanes, vec3a_keys};

verus! {

/// The position of an influence in the space of the entity, on axis `i`.
pub open spec fn influence_image(
    influence: InfluenceModel,
    poses: Seq<Seq<u32>>,
    joints: Seq<Option<GlobalTransform>>,
    entity_from_world: Seq<Key>,
    i: int,
) -> Key {
    image_sums(
        entity_from_joint(entity_from_world, joints[influence.joint_index]->0),
        jointspace_point(influence, poses),
        i,
    )[2]
}

/// Whether the joint of an influence has a transform, and its image comes about without a NaN on
/// axis `i`; nor has another position that the joint moves a NaN.
pub open spec fn image_is_found(
    influences: Seq<InfluenceModel>,
    influence: InfluenceModel,
    poses: Seq<Seq<u32>>,
    joints: Seq<Option<GlobalTransform>>,
    entity_from_world: Seq<Key>,
    i: int,
) -> bool {
    let j = influence.joint_index;
    &&& 0 <= j < joints.len()
    &&& joints[j] is Some
    &&& forall|p: int, c: int|
        0 <= p < joint_points(influences, poses, j).len() && 0 <= c < 3 ==> is_number(
            #[trigger] joint_points(influences, poses, j)[p][c],
        )
    &&& image_is_number(
        entity_from_joint(entity_from_world, joints[j]->0),
        jointspace_point(influence, poses),
        i,
    )
}

/// The slot of influence `k` of vertex `v`.
pub open spec fn vertex_slot(v: int, k: int) -> int {
    MAX_INFLUENCES * v + k
}

/// Whether `q` lies, on axis `i`, between the images of vertex `v` under two of the joints that move
/// it. The weighted mean of its images does.
pub open spec fn is_between_images(
    skin: SkinModel,
    v: int,
    poses: Seq<Seq<u32>>,
    joints: Seq<Option<GlobalTransform>>,
    entity_from_world: Seq<Key>,
    i: int,
    q: Key,
) -> bool {
    exists|low: int, high: int|
        #![trigger vertex_slot(v, low), vertex_slot(v, high)]
        {
            &&& 0 <= low < MAX_INFLUENCES
            &&& 0 <= high < MAX_INFLUENCES
            &&& has_weight(skin, vertex_slot(v, low))
            &&& has_weight(skin, vertex_slot(v, high))
            &&& le(
                influence_image(
                    influence_at(skin, vertex_slot(v, low)),
                    poses,
                    joints,
                    entity_from_world,
                    i,
                ),
                q,
            )
            &&& le(
                q,
                influence_image(
                    influence_at(skin, vertex_slot(v, high)),
                    poses,
                    joints,
                    entity_from_world,
                    i,
                ),
            )
        }
}

/// Whether every joint that moves vertex `v` is found (see [`image_is_found`]).
pub open spec fn vertex_is_found(
    mesh: Mesh,
    v: int,
    poses: Seq<Seq<u32>>,
    joints: Seq<Option<GlobalTransform>>,
    entity_from_world: Seq<Key>,
    i: int,
) -> bool {
    &&& 0 <= v < mesh_skin(mesh).positions.len()
    &&& forall|k: int|
        0 <= k < MAX_INFLUENCES && has_weight(mesh_skin(mesh), #[trigger] vertex_slot(v, k))
            ==> image_is_found(
            mesh_influences(mesh),
            influence_at(mesh_skin(mesh), vertex_slot(v, k)),
            poses,
            joints,
            entity_from_world,
            i,
        )
}

/// The image of a vertex under one of the joints that move it lies between the merged corners.
proof fn lemma_image_is_covered(
    mesh: Mesh,
    poses: Seq<Seq<u32>>,
    asset: SkinnedAabbAsset,
    joints: Seq<Option<GlobalTransform>>,
    entity_from_world: Seq<Key>,
    boxes: Seq<BoxModel>,
    min: Seq<Key>,
    max: Seq<Key>,
    v: int,
    k: int,
    i: int,
)
    requires
        skin_is_valid(mesh, poses),
        asset.describes(mesh_influences(mesh), poses),
        covers_joints(
            boxes,
            min,
            max,
            asset,
            joints,
            entity_from_world,
            asset.aabbs@.len() as int,
        ),
        vertex_is_found(mesh, v, poses, joints, entity_from_world, i),
        0 <= i < 3,
        union_min(boxes, i) is Some,
        union_max(boxes, i) is Some,
        0 <= k < MAX_INFLUENCES,
        has_weight(mesh_skin(mesh), vertex_slot(v, k)),
    ensures
        ({
            let image = influence_image(
                influence_at(mesh_skin(mesh), vertex_slot(v, k)),
                poses,
                joints,
                entity_from_world,
                i,
            );
            le(min[i], image) && le(image, max[i])
        }),
{
    let influences = mesh_influences(mesh);
    let influence = influence_at(mesh_skin(mesh), vertex_slot(v, k));
    lemma_influence_has_slot(mesh_skin(mesh), influence);
    lemma_joint_indices_are_small(mesh_skin(mesh), 0);
    assert(influences.contains(influence));
    let l = choose|l: int| 0 <= l < influences.len() && influences[l] == influence;
    law_moved_positions_are_covered(
        asset,
        influences,
        poses,
        l,
        joints,
        entity_from_world,
        boxes,
        min,
        max,
        i,
    );
}

/// A vertex whose joints are found lies between the corners of the merged boxes: not only its images
/// under its joints do, but whatever lies between two of them. On each axis on which no NaN turns
/// up.
pub proof fn law_vertices_are_covered(
    mesh: Mesh,
    poses: Seq<Seq<u32>>,
    asset: SkinnedAabbAsset,
    joints: Seq<Option<GlobalTransform>>,
    entity_from_world: Seq<Key>,
    boxes: Seq<BoxModel>,
    min: Seq<Key>,
    max: Seq<Key>,
    v: int,
    i: int,
    q: Key,
)
    requires
        skin_is_valid(mesh, poses),
        asset.describes(mesh_influences(mesh), poses),
        covers_joints(
            boxes,
            min,
            max,
            asset,
            joints,
            entity_from_world,
            asset.aabbs@.len() as int,
        ),
        vertex_is_found(mesh, v, poses, joints, entity_from_world, i),
        0 <= i < 3,
        union_min(boxes, i) is Some,
        union_max(boxes, i) is Some,
        is_between_images(mesh_skin(mesh), v, poses, joints, entity_from_world, i, q),
    ensures
        le(min[i], q),
        le(q, max[i]),
{
    let skin = mesh_skin(mesh);
    let (low, high) = choose|low: int, high: int|
        #![trigger vertex_slot(v, low), vertex_slot(v, high)]
        {
            &&& 0 <= low < MAX_INFLUENCES
            &&& 0 <= high < MAX_INFLUENCES
            &&& has_weight(skin, vertex_slot(v, low))
            &&& has_weight(skin, vertex_slot(v, high))
            &&& le(
                influence_image(
                    influence_at(skin, vertex_slot(v, low)),
                    poses,
                    joints,
                    entity_from_world,
                    i,
                ),
                q,
            )
            &&& le(
                q,
                influence_image(
                    influence_at(skin, vertex_slot(v, high)),
                    poses,
                    joints,
                    entity_from_world,
                    i,
                ),
            )
        };
    lemma_image_is_covered(
        mesh,
        poses,
        asset,
        joints,
        entity_from_world,
        boxes,
        min,
        max,
        v,
        low,
        i,
    );
    lemma_image_is_covered(
        mesh,
        poses,
        asset,
        joints,
        entity_from_world,
        boxes,
        min,
        max,
        v,
        high,
        i,
    );
}

/// Whether centre and half extents of a box give back its corners on axis `i`, so that nothing is
/// lost to rounding.
pub open spec fn keeps_corners(boxes: Seq<BoxModel>, aabb: Aabb, i: int) -> bool {
    let center = vec3a_keys(aabb.center)[i];
    let half_extent = vec3a_keys(aabb.half_extents)[i];
    &&& float_difference(center, half_extent) == union_min(boxes, i)
    &&& float_sum(center, half_extent) == union_max(boxes, i)
}

/// The box of an entity contains its vertices in every pose: where the joints of a vertex are found
/// there is a box, and on no axis is the vertex further from its centre than the half extent; as long
/// as no NaN turns up and nothing is lost to rounding in the centre and the half extents.
pub proof fn law_box_contains_vertices(
    mesh: Mesh,
    poses: Seq<Seq<u32>>,
    asset: SkinnedAabbAsset,
    joints: Seq<Option<GlobalTransform>>,
    world_from_entity: GlobalTransform,
    r: Option<Aabb>,
    v: int,
    i: int,
    q: Key,
)
    requires
        skin_is_valid(mesh, poses),
        asset.describes(mesh_influences(mesh), poses),
        is_entity_aabb(entity_boxes(asset, joints, world_from_entity), r),
        union_covers_joints(asset, joints, world_from_entity),
        vertex_is_found(
            mesh,
            v,
            poses,
            joints,
            affine_inverse(global_transform_lanes(world_from_entity)),
            i,
        ),
        0 <= i < 3,
        union_min(entity_boxes(asset, joints, world_from_entity), i) is Some,
        union_max(entity_boxes(asset, joints, world_from_entity), i) is Some,
        is_between_images(
            mesh_skin(mesh),
            v,
            poses,
            joints,
            affine_inverse(global_transform_lanes(world_from_entity)),
            i,
            q,
        ),
        r matches Some(aabb) ==> keeps_corners(
            entity_boxes(asset, joints, world_from_entity),
            aabb,
            i,
        ),
    ensures
        union_min(entity_boxes(asset, joints, world_from_entity), 0) is Some && union_max(
            entity_boxes(asset, joints, world_from_entity),
            0,
        ) is Some ==> r is Some,
        r matches Some(aabb) ==> {
            let center = vec3a_keys(aabb.center)[i];
            let half_extent = vec3a_keys(aabb.half_extents)[i];
            le(float_difference(center, half_extent), q) && le(
                q,
                float_sum(center, half_extent),
            )
        },
{
    let boxes = entity_boxes(asset, joints, world_from_entity);
    law_vertices_are_covered(
        mesh,
        poses,
        asset,
        joints,
        affine_inverse(global_transform_lanes(world_from_entity)),
        boxes,
        union_box(boxes).min,
        union_box(boxes).max,
        v,
        i,
        q,
    );
}

} // verus!
