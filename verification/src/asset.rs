//! The bounding boxes of the joints of a skin.
use bevy_ecs::entity::Entity;
use bevy_math::bounding::Aabb3d;
use bevy_math::{Affine3A, Mat4};
use bevy_mesh::skinning::{SkinnedMesh, SkinnedMeshInverseBindposes};
use bevy_mesh::Mesh;
use bevy_transform::components::GlobalTransform;
use vstd::prelude::*;

use crate::aabb::{merge, PackedAabb3d};
use crate::float::{hi, is_number, keys, le, lo, Key};
use crate::influence::{
    lemma_joint_indices_are_small, mesh_influences, mesh_is_readable, mesh_skin,
    InfluenceIterator, InfluenceModel, SkinError,
};
use crate::lookup::{
    entity_transforms, get_joint_entities, get_transform, joint_entities, JointTransforms,
};
use crate::math::{
    affine_lanes, global_transform_affine, global_transform_lanes, mat4_lanes,
    mat4_transform_point3, point_transformed, vec3_keys, vec3_lanes, vec3a_from_vec3, vec3a_keys,
    vec3a_lanes,
};

verus! {

/// The index of a joint, as meshes store it.
pub type JointIndex = u16;

/// `bevy_mesh::skinning::SkinnedMeshInverseBindposes`, known by [`bindpose_lanes`].
#[verifier::external_type_specification]
#[verifier::external_body]
pub struct ExSkinnedMeshInverseBindposes(SkinnedMeshInverseBindposes);

/// The elements of the matrix of each joint, as bit patterns, column by column.
pub uninterp spec fn bindpose_lanes(b: SkinnedMeshInverseBindposes) -> Seq<Seq<u32>>;

/// `SkinnedMeshInverseBindposes::deref`: the matrices, one per joint.
#[verifier::external_body]
fn bindpose_matrices(b: &SkinnedMeshInverseBindposes) -> (r: &[Mat4])
    ensures
        r@.len() == bindpose_lanes(*b).len(),
        forall|j: int| 0 <= j < r@.len() ==> mat4_lanes(#[trigger] r@[j]) == bindpose_lanes(*b)[j],
{
    b
}

/// Whether some influence is one of joint `j`.
pub open spec fn is_skinned(influences: Seq<InfluenceModel>, j: int) -> bool {
    exists|k: int| 0 <= k < influences.len() && (#[trigger] influences[k]).joint_index == j
}

/// The joints below `n` that have an influence, in ascending order.
pub open spec fn skinned_joints(influences: Seq<InfluenceModel>, n: int) -> Seq<int>
    decreases n,
{
    if n <= 0 {
        seq![]
    } else if is_skinned(influences, n - 1) {
        skinned_joints(influences, n - 1).push(n - 1)
    } else {
        skinned_joints(influences, n - 1)
    }
}

/// The position of an influence in the space of its joint.
pub open spec fn jointspace_point(
    influence: InfluenceModel,
    poses: Seq<Seq<u32>>,
) -> Seq<Key> {
    point_transformed(keys(poses[influence.joint_index], 16), keys(influence.position, 3))
}

/// The positions that joint `j` moves, in the space of that joint.
pub open spec fn joint_points(
    influences: Seq<InfluenceModel>,
    poses: Seq<Seq<u32>>,
    j: int,
) -> Seq<Seq<Key>>
    decreases influences.len(),
{
    if influences.len() == 0 {
        seq![]
    } else {
        let before = joint_points(influences.drop_last(), poses, j);
        if influences.last().joint_index == j {
            before.push(point_transformed(keys(poses[j], 16), keys(influences.last().position, 3)))
        } else {
            before
        }
    }
}

/// The smallest coordinate `i` among the points; `None` where one of them is a NaN.
pub open spec fn lowest(points: Seq<Seq<Key>>, i: int) -> Key
    decreases points.len(),
{
    if points.len() == 0 {
        None
    } else if points.len() == 1 {
        points[0][i]
    } else {
        lo(points.last()[i], lowest(points.drop_last(), i))
    }
}

/// The largest coordinate `i` among the points; `None` where one of them is a NaN.
pub open spec fn highest(points: Seq<Seq<Key>>, i: int) -> Key
    decreases points.len(),
{
    if points.len() == 0 {
        None
    } else if points.len() == 1 {
        points[0][i]
    } else {
        hi(points.last()[i], highest(points.drop_last(), i))
    }
}

/// Whether `min` and `max` are the corners of the smallest box around the points, on each axis on
/// which no point has a NaN.
pub open spec fn bounds(points: Seq<Seq<Key>>, min: Seq<Key>, max: Seq<Key>) -> bool {
    &&& forall|i: int|
        0 <= i < 3 && lowest(points, i) is Some ==> #[trigger] min[i] == lowest(points, i)
    &&& forall|i: int|
        0 <= i < 3 && highest(points, i) is Some ==> #[trigger] max[i] == highest(points, i)
}

/// Whether the vertices of the mesh can be read and each is moved by joints of the skin only.
pub open spec fn skin_is_valid(mesh: Mesh, poses: Seq<Seq<u32>>) -> bool {
    &&& mesh_is_readable(mesh)
    &&& forall|k: int|
        0 <= k < mesh_influences(mesh).len() ==> (#[trigger] mesh_influences(mesh)[k]).joint_index
            < poses.len()
}

/// The transform of each joint of a skinned mesh, where the entity of the joint has one.
pub open spec fn joint_transforms(
    entities: Seq<Entity>,
    transforms: Map<Entity, GlobalTransform>,
) -> Seq<Option<GlobalTransform>> {
    Seq::new(entities.len(), |j: int| transforms.get(entities[j]))
}

/// An asset as other assets and handles refer to it.
#[derive(Copy, Clone, Debug, PartialEq, Eq, Structural)]
pub enum AssetKey {
    /// A place in a collection of assets, which the collection chose.
    Index { bits: u64 },
    /// A name that holds across runs.
    Uuid { uuid: u128 },
}

/// The assets that a [`SkinnedAabbAsset`] is made from.
#[derive(Copy, Clone, Debug, PartialEq, Eq, Structural)]
pub struct SkinnedAabbSourceAssets {
    pub mesh: AssetKey,
    pub inverse_bindposes: AssetKey,
}

/// The bounding boxes of the joints that move vertices.
#[derive(Debug)]
pub struct SkinnedAabbAsset {
    /// The source assets. They are kept so that entities can share an asset by searching for
    /// matching source assets.
    pub source: SkinnedAabbSourceAssets,
    /// The joint space box of each joint that moves vertices.
    pub aabbs: Vec<PackedAabb3d>,
    /// For each of `aabbs`, the index of its joint in the joints of the skinned mesh.
    pub aabb_index_to_joint_index: Vec<JointIndex>,
}

impl SkinnedAabbAsset {
    /// Whether the boxes are those of a skin with the given influences and inverse bind poses:
    /// one for each joint that has an influence, in ascending order of the joints, and each the
    /// smallest around the positions that its joint moves.
    pub open spec fn describes(
        self,
        influences: Seq<InfluenceModel>,
        poses: Seq<Seq<u32>>,
    ) -> bool {
        let joints = skinned_joints(influences, poses.len() as int);
        &&& self.aabbs@.len() == joints.len()
        &&& self.aabb_index_to_joint_index@.len() == joints.len()
        &&& forall|a: int|
            0 <= a < joints.len() ==> {
                &&& #[trigger] self.aabb_index_to_joint_index@[a] == joints[a]
                &&& bounds(
                    joint_points(influences, poses, joints[a]),
                    vec3_keys(self.aabbs@[a].min),
                    vec3_keys(self.aabbs@[a].max),
                )
            }
    }

    /// The joint of a box.
    pub open spec fn joint_of(self, aabb_index: int) -> Option<int> {
        if 0 <= aabb_index < self.aabb_index_to_joint_index@.len() {
            Some(self.aabb_index_to_joint_index@[aabb_index] as int)
        } else {
            None
        }
    }

    /// The world space transform of the joint of a box, if that joint is known and has one.
    pub open spec fn joint_transform(
        self,
        aabb_index: int,
        joints: Seq<Option<GlobalTransform>>,
    ) -> Option<GlobalTransform> {
        match self.joint_of(aabb_index) {
            Some(j) => if j < joints.len() {
                joints[j]
            } else {
                None
            },
            None => None,
        }
    }

    /// A box, in the space of its joint.
    pub fn aabb(&self, aabb_index: usize) -> (r: PackedAabb3d)
        requires
            aabb_index < self.aabbs@.len(),
        ensures
            r == self.aabbs@[aabb_index as int],
    {
        self.aabbs[aabb_index]
    }

    /// The number of boxes.
    pub fn num_aabbs(&self) -> (r: usize)
        ensures
            r == self.aabbs@.len(),
    {
        self.aabbs.len()
    }

    /// The world space transform of the joint of a box. There is none where the box or its joint is
    /// out of range, or where the entity of the joint has no transform.
    pub fn world_from_joint(
        &self,
        aabb_index: usize,
        skinned_mesh: &SkinnedMesh,
        joints: &JointTransforms,
    ) -> (r: Option<Affine3A>)
        ensures
            ({
                let transform = self.joint_transform(
                    aabb_index as int,
                    joint_transforms(joint_entities(*skinned_mesh), entity_transforms(*joints)),
                );
                &&& r is Some <==> transform is Some
                &&& r matches Some(a) ==> affine_lanes(a) == global_transform_lanes(transform->0)
            }),
            r is Some <==> {
                &&& aabb_index < self.aabb_index_to_joint_index@.len()
                &&& self.aabb_index_to_joint_index@[aabb_index as int] < joint_entities(
                    *skinned_mesh,
                ).len()
                &&& entity_transforms(*joints).dom().contains(
                    joint_entities(
                        *skinned_mesh,
                    )[self.aabb_index_to_joint_index@[aabb_index as int] as int],
                )
            },
            r matches Some(a) ==> affine_lanes(a) == global_transform_lanes(
                entity_transforms(
                    *joints,
                )[joint_entities(
                    *skinned_mesh,
                )[self.aabb_index_to_joint_index@[aabb_index as int] as int]],
            ),
    {
        if aabb_index >= self.aabb_index_to_joint_index.len() {
            return None;
        }
        let joint_index: usize = self.aabb_index_to_joint_index[aabb_index] as usize;
        let entities = get_joint_entities(skinned_mesh);
        if joint_index >= entities.len() {
            return None;
        }
        match get_transform(joints, entities[joint_index]) {
            Some(transform) => Some(global_transform_affine(&transform)),
            None => None,
        }
    }
}

/// Adding an influence adds its point to those of its joint and leaves the other joints alone.
proof fn lemma_joint_points_push(
    influences: Seq<InfluenceModel>,
    influence: InfluenceModel,
    poses: Seq<Seq<u32>>,
    j: int,
)
    ensures
        joint_points(influences.push(influence), poses, j) == if influence.joint_index == j {
            joint_points(influences, poses, j).push(
                point_transformed(keys(poses[j], 16), keys(influence.position, 3)),
            )
        } else {
            joint_points(influences, poses, j)
        },
{
    assert(influences.push(influence).drop_last() =~= influences);
}

/// A joint has points exactly when it has an influence.
proof fn lemma_is_skinned_iff_points(
    influences: Seq<InfluenceModel>,
    poses: Seq<Seq<u32>>,
    j: int,
)
    ensures
        is_skinned(influences, j) <==> joint_points(influences, poses, j).len() > 0,
    decreases influences.len(),
{
    if influences.len() > 0 {
        lemma_is_skinned_iff_points(influences.drop_last(), poses, j);
        let before = influences.drop_last();
        if is_skinned(before, j) {
            let k = choose|k: int| 0 <= k < before.len() && (#[trigger] before[k]).joint_index == j;
            assert(influences[k].joint_index == j);
        }
        if is_skinned(influences, j) && influences.last().joint_index != j {
            let k = choose|k: int|
                0 <= k < influences.len() && (#[trigger] influences[k]).joint_index == j;
            assert(before[k].joint_index == j);
        }
    }
}

/// The joints below `n` that have a box, in ascending order.
pub open spec fn boxed_joints(optional_aabbs: Seq<Option<Aabb3d>>, n: int) -> Seq<int>
    decreases n,
{
    if n <= 0 {
        seq![]
    } else if optional_aabbs[n - 1] is Some {
        boxed_joints(optional_aabbs, n - 1).push(n - 1)
    } else {
        boxed_joints(optional_aabbs, n - 1)
    }
}

/// Where the joints with a box are the joints with an influence, so are the lists of them.
proof fn lemma_boxed_joints_are_skinned(
    optional_aabbs: Seq<Option<Aabb3d>>,
    influences: Seq<InfluenceModel>,
    n: int,
)
    requires
        forall|j: int|
            0 <= j < n ==> ((#[trigger] optional_aabbs[j]) is Some <==> is_skinned(influences, j)),
    ensures
        boxed_joints(optional_aabbs, n) == skinned_joints(influences, n),
    decreases n,
{
    if n > 0 {
        lemma_boxed_joints_are_skinned(optional_aabbs, influences, n - 1);
        assert(optional_aabbs[n - 1] is Some <==> is_skinned(influences, n - 1));
    }
}

/// The boxes of the joints that have one, and beside each the index of its joint.
pub fn pack_joint_aabbs(optional_aabbs: &Vec<Option<Aabb3d>>) -> (r: (
    Vec<PackedAabb3d>,
    Vec<JointIndex>,
))
    ensures
        ({
            let joints = boxed_joints(optional_aabbs@, optional_aabbs@.len() as int);
            &&& r.0@.len() == joints.len()
            &&& r.1@.len() == joints.len()
            &&& forall|a: int|
                #![trigger joints[a]]
                #![trigger r.0@[a]]
                #![trigger r.1@[a]]
                0 <= a < joints.len() ==> {
                    &&& r.1@[a] == joints[a] as JointIndex
                    &&& vec3_lanes(r.0@[a].min) == vec3a_lanes(optional_aabbs@[joints[a]]->0.min)
                    &&& vec3_lanes(r.0@[a].max) == vec3a_lanes(optional_aabbs@[joints[a]]->0.max)
                }
        }),
{
    let mut aabbs: Vec<PackedAabb3d> = Vec::new();
    let mut aabb_index_to_joint_index: Vec<JointIndex> = Vec::new();
    let mut joint_index: usize = 0;
    while joint_index < optional_aabbs.len()
        invariant
            joint_index <= optional_aabbs@.len(),
            aabbs@.len() == boxed_joints(optional_aabbs@, joint_index as int).len(),
            aabb_index_to_joint_index@.len() == aabbs@.len(),
            forall|a: int|
                0 <= a < aabbs@.len() ==> {
                    let j = #[trigger] boxed_joints(optional_aabbs@, joint_index as int)[a];
                    &&& aabb_index_to_joint_index@[a] == j as JointIndex
                    &&& vec3_lanes(aabbs@[a].min) == vec3a_lanes(optional_aabbs@[j]->0.min)
                    &&& vec3_lanes(aabbs@[a].max) == vec3a_lanes(optional_aabbs@[j]->0.max)
                },
        decreases optional_aabbs@.len() - joint_index,
    {
        if let Some(aabb) = optional_aabbs[joint_index] {
            aabbs.push(PackedAabb3d::from(aabb));
            aabb_index_to_joint_index.push(
                #[verifier::truncate]
                (joint_index as JointIndex),
            );
        }
        joint_index += 1;
    }
    (aabbs, aabb_index_to_joint_index)
}

/// The box of a joint whose points so far are given.
spec fn aabb_so_far(aabb: Option<Aabb3d>, points: Seq<Seq<Key>>) -> bool {
    match aabb {
        None => points.len() == 0,
        Some(a) => points.len() > 0 && bounds(points, vec3a_keys(a.min), vec3a_keys(a.max)),
    }
}

/// Makes the boxes of the joints of a skin.
///
/// Only joints that move vertices have one.
pub fn create_skinned_aabb_asset(
    mesh: &Mesh,
    mesh_key: AssetKey,
    inverse_bindposes: &SkinnedMeshInverseBindposes,
    inverse_bindposes_key: AssetKey,
) -> (r: SkinnedAabbAsset)
    requires
        skin_is_valid(*mesh, bindpose_lanes(*inverse_bindposes)),
    ensures
        r.source.mesh == mesh_key,
        r.source.inverse_bindposes == inverse_bindposes_key,
        r.describes(mesh_influences(*mesh), bindpose_lanes(*inverse_bindposes)),
{
    let matrices = bindpose_matrices(inverse_bindposes);
    let num_joints: usize = matrices.len();
    let ghost poses = bindpose_lanes(*inverse_bindposes);
    let ghost all = mesh_influences(*mesh);

    // An optional box for each joint.

    let mut optional_aabbs: Vec<Option<Aabb3d>> = Vec::new();
    let mut next_joint: usize = 0;
    while next_joint < num_joints
        invariant
            next_joint <= num_joints,
            optional_aabbs@.len() == next_joint,
            forall|j: int| 0 <= j < next_joint ==> (#[trigger] optional_aabbs@[j]) is None,
        decreases num_joints - next_joint,
    {
        optional_aabbs.push(None);
        next_joint += 1;
    }

    // Add the position of each influence to the box of its joint.

    let mut influences = InfluenceIterator::new(mesh);
    let ghost mut done: Seq<InfluenceModel> = seq![];
    loop
        invariant
            influences.well_formed(),
            done + influences.remaining() == all,
            all == mesh_influences(*mesh),
            skin_is_valid(*mesh, poses),
            num_joints == poses.len(),
            matrices@.len() == num_joints,
            forall|j: int| 0 <= j < num_joints ==> mat4_lanes(#[trigger] matrices@[j]) == poses[j],
            optional_aabbs@.len() == num_joints,
            forall|j: int|
                0 <= j < num_joints ==> aabb_so_far(
                    #[trigger] optional_aabbs@[j],
                    joint_points(done, poses, j),
                ),
        ensures
            done == all,
        decreases influences.remaining().len(),
    {
        let influence = match influences.next() {
            Some(influence) => influence,
            None => {
                assert(done =~= all);
                break;
            },
        };
        let joint_index: usize = influence.joint_index;
        assert(all[done.len() as int] == influence@);
        let jointspace_position = mat4_transform_point3(&matrices[joint_index], influence.position);
        let merged = merge(optional_aabbs[joint_index], vec3a_from_vec3(jointspace_position));
        optional_aabbs.set(joint_index, Some(merged));
        proof {
            assert forall|j: int| 0 <= j < num_joints implies aabb_so_far(
                #[trigger] optional_aabbs@[j],
                joint_points(done.push(influence@), poses, j),
            ) by {
                lemma_joint_points_push(done, influence@, poses, j);
                let points = joint_points(done, poses, j);
                let point = point_transformed(keys(poses[j], 16), keys(influence@.position, 3));
                assert(points.push(point).drop_last() =~= points);
            }
            done = done.push(influence@);
            assert(done + influences.remaining() =~= all);
        }
    }

    // Keep the joints that got a box.

    proof {
        assert forall|j: int| 0 <= j < num_joints implies ((#[trigger] optional_aabbs@[j]) is Some
            <==> is_skinned(all, j)) by {
            lemma_is_skinned_iff_points(all, poses, j);
        }
        lemma_boxed_joints_are_skinned(optional_aabbs@, all, num_joints as int);
        law_skinned_joints(all, num_joints as int);
        lemma_joint_indices_are_small(mesh_skin(*mesh), 0);
    }
    let (aabbs, aabb_index_to_joint_index) = pack_joint_aabbs(&optional_aabbs);
    proof {
        let joints = skinned_joints(all, num_joints as int);
        assert forall|a: int| 0 <= a < joints.len() implies {
            &&& #[trigger] aabb_index_to_joint_index@[a] == joints[a]
            &&& bounds(
                joint_points(all, poses, joints[a]),
                vec3_keys(aabbs@[a].min),
                vec3_keys(aabbs@[a].max),
            )
        } by {
            assert(joints.contains(joints[a]));
            let k = choose|k: int| 0 <= k < all.len() && (#[trigger] all[k]).joint_index
                == joints[a];
            assert(all[k].joint_index <= JointIndex::MAX);
        }
    }

    SkinnedAabbAsset {
        source: SkinnedAabbSourceAssets {
            mesh: mesh_key,
            inverse_bindposes: inverse_bindposes_key,
        },
        aabbs,
        aabb_index_to_joint_index,
    }
}

/// Whether influence `k` is the first one of a joint that the skin does not have.
pub open spec fn is_first_out_of_range(
    influences: Seq<InfluenceModel>,
    num_joints: int,
    k: int,
) -> bool {
    &&& 0 <= k < influences.len()
    &&& influences[k].joint_index >= num_joints
    &&& forall|l: int| 0 <= l < k ==> (#[trigger] influences[l]).joint_index < num_joints
}

/// Whether `e` says why no boxes can be made for a skin: its mesh cannot be read, or else it has an
/// influence of a joint out of range, of which the first is named.
pub open spec fn is_skin_error(e: SkinError, mesh: Mesh, poses: Seq<Seq<u32>>) -> bool {
    match e {
        SkinError::MeshNotReadable => !mesh_is_readable(mesh),
        SkinError::JointOutOfRange { joint_index, num_joints } => {
            &&& mesh_is_readable(mesh)
            &&& num_joints == poses.len()
            &&& exists|k: int|
                is_first_out_of_range(mesh_influences(mesh), num_joints as int, k) && joint_index
                    == (#[trigger] mesh_influences(mesh)[k]).joint_index
        },
    }
}

/// Whether boxes can be made for a skin, and if not, why.
pub fn check_skin(mesh: &Mesh, inverse_bindposes: &SkinnedMeshInverseBindposes) -> (r: Result<
    (),
    SkinError,
>)
    ensures
        r is Ok <==> skin_is_valid(*mesh, bindpose_lanes(*inverse_bindposes)),
        r matches Err(e) ==> is_skin_error(e, *mesh, bindpose_lanes(*inverse_bindposes)),
{
    let num_joints: usize = bindpose_matrices(inverse_bindposes).len();
    let ghost all = mesh_influences(*mesh);
    let mut influences = match InfluenceIterator::try_new(mesh) {
        Ok(influences) => influences,
        Err(e) => {
            return Err(e);
        },
    };
    let ghost mut done: int = 0;
    loop
        invariant
            influences.well_formed(),
            0 <= done <= all.len(),
            influences.remaining() == all.skip(done),
            all == mesh_influences(*mesh),
            mesh_is_readable(*mesh),
            num_joints == bindpose_lanes(*inverse_bindposes).len(),
            forall|k: int| 0 <= k < done ==> (#[trigger] all[k]).joint_index < num_joints,
        decreases all.len() - done,
    {
        match influences.next() {
            Some(influence) => {
                assert(influence@ == all[done]);
                if influence.joint_index >= num_joints {
                    assert(is_first_out_of_range(all, num_joints as int, done) && all[done].joint_index
                        == influence.joint_index);
                    return Err(
                        SkinError::JointOutOfRange {
                            joint_index: influence.joint_index,
                            num_joints,
                        },
                    );
                }
                proof {
                    assert(all.skip(done).skip(1) =~= all.skip(done + 1));
                    done = done + 1;
                }
            },
            None => {
                return Ok(());
            },
        }
    }
}

/// Makes the boxes of the joints of a skin, if that is possible.
pub fn try_create_skinned_aabb_asset(
    mesh: &Mesh,
    mesh_key: AssetKey,
    inverse_bindposes: &SkinnedMeshInverseBindposes,
    inverse_bindposes_key: AssetKey,
) -> (r: Result<SkinnedAabbAsset, SkinError>)
    ensures
        r is Ok <==> skin_is_valid(*mesh, bindpose_lanes(*inverse_bindposes)),
        r matches Ok(asset) ==> {
            &&& asset.source.mesh == mesh_key
            &&& asset.source.inverse_bindposes == inverse_bindposes_key
            &&& asset.describes(mesh_influences(*mesh), bindpose_lanes(*inverse_bindposes))
        },
        r matches Err(e) ==> is_skin_error(e, *mesh, bindpose_lanes(*inverse_bindposes)),
{
    match check_skin(mesh, inverse_bindposes) {
        Ok(()) => Ok(
            create_skinned_aabb_asset(mesh, mesh_key, inverse_bindposes, inverse_bindposes_key),
        ),
        Err(e) => Err(e),
    }
}

/// The joints with boxes are the joints with an influence, each once and in ascending order.
pub proof fn law_skinned_joints(influences: Seq<InfluenceModel>, n: int)
    ensures
        forall|a: int, b: int|
            0 <= a < b < skinned_joints(influences, n).len() ==> #[trigger] skinned_joints(
                influences,
                n,
            )[a] < #[trigger] skinned_joints(influences, n)[b],
        forall|j: int| #[trigger]
            skinned_joints(influences, n).contains(j) <==> 0 <= j < n && is_skinned(influences, j),
    decreases n,
{
    if n > 0 {
        law_skinned_joints(influences, n - 1);
        let before = skinned_joints(influences, n - 1);
        let now = skinned_joints(influences, n);
        assert forall|j: int| #[trigger] now.contains(j) <==> 0 <= j < n && is_skinned(
            influences,
            j,
        ) by {
            if is_skinned(influences, n - 1) {
                assert(now[before.len() as int] == n - 1);
                if now.contains(j) && j != n - 1 {
                    let a = choose|a: int| 0 <= a < now.len() && now[a] == j;
                    assert(before[a] == j);
                }
                if before.contains(j) {
                    let a = choose|a: int| 0 <= a < before.len() && before[a] == j;
                    assert(now[a] == j);
                }
            }
            assert(before.contains(j) <==> 0 <= j < n - 1 && is_skinned(influences, j));
        }
        assert forall|a: int, b: int| 0 <= a < b < now.len() implies #[trigger] now[a]
            < #[trigger] now[b] by {
            if b < before.len() {
                assert(now[a] == before[a] && now[b] == before[b]);
            } else {
                assert(before.contains(before[a]));
            }
        }
    }
}

/// On an axis on which every point has a number, the bounds contain every point, and each of the
/// two is reached by some point.
pub proof fn law_bounds_are_tight(points: Seq<Seq<Key>>, min: Seq<Key>, max: Seq<Key>, i: int)
    requires
        bounds(points, min, max),
        0 <= i < 3,
        points.len() > 0,
        forall|k: int| 0 <= k < points.len() ==> is_number(#[trigger] points[k][i]),
    ensures
        forall|k: int|
            0 <= k < points.len() ==> le(min[i], #[trigger] points[k][i]) && le(
                points[k][i],
                max[i],
            ),
        exists|k: int| 0 <= k < points.len() && #[trigger] points[k][i] == min[i],
        exists|k: int| 0 <= k < points.len() && #[trigger] points[k][i] == max[i],
{
    lemma_extremes(points, i);
    assert(min[i] == lowest(points, i));
    assert(max[i] == highest(points, i));
}

/// The extremes of numbers are numbers among them that bound them all.
proof fn lemma_extremes(points: Seq<Seq<Key>>, i: int)
    requires
        points.len() > 0,
        forall|k: int| 0 <= k < points.len() ==> is_number(#[trigger] points[k][i]),
    ensures
        is_number(lowest(points, i)),
        is_number(highest(points, i)),
        forall|k: int|
            0 <= k < points.len() ==> le(lowest(points, i), #[trigger] points[k][i]) && le(
                points[k][i],
                highest(points, i),
            ),
        exists|k: int| 0 <= k < points.len() && #[trigger] points[k][i] == lowest(points, i),
        exists|k: int| 0 <= k < points.len() && #[trigger] points[k][i] == highest(points, i),
    decreases points.len(),
{
    if points.len() == 1 {
        assert(points[0][i] == lowest(points, i));
    } else {
        let before = points.drop_last();
        assert forall|k: int| 0 <= k < before.len() implies is_number(#[trigger] before[k][i]) by {
            assert(before[k] == points[k]);
        }
        lemma_extremes(before, i);
        let low = choose|k: int| 0 <= k < before.len() && #[trigger] before[k][i] == lowest(before, i);
        let high = choose|k: int|
            0 <= k < before.len() && #[trigger] before[k][i] == highest(before, i);
        assert(points[low][i] == before[low][i]);
        assert(points[high][i] == before[high][i]);
        assert(points[points.len() - 1][i] == points.last()[i]);
        assert forall|k: int| 0 <= k < points.len() implies le(
            lowest(points, i),
            #[trigger] points[k][i],
        ) && le(points[k][i], highest(points, i)) by {
            if k < before.len() {
                assert(points[k][i] == before[k][i]);
            }
        }
    }
}

/// Each influence has its point among those of its joint.
pub proof fn lemma_influence_has_point(
    influences: Seq<InfluenceModel>,
    poses: Seq<Seq<u32>>,
    k: int,
)
    requires
        0 <= k < influences.len(),
    ensures
        joint_points(influences, poses, influences[k].joint_index).contains(
            jointspace_point(influences[k], poses),
        ),
    decreases influences.len(),
{
    let j = influences[k].joint_index;
    let before = influences.drop_last();
    let points = joint_points(influences, poses, j);
    let point = jointspace_point(influences[k], poses);
    if k == influences.len() - 1 {
        assert(points[points.len() - 1] == point);
    } else {
        assert(before[k] == influences[k]);
        lemma_influence_has_point(before, poses, k);
        let p = choose|p: int|
            0 <= p < joint_points(before, poses, j).len() && joint_points(before, poses, j)[p]
                == point;
        assert(points[p] == point);
    }
}

/// Each point of a joint is that of one of its influences.
pub proof fn lemma_point_has_influence(
    influences: Seq<InfluenceModel>,
    poses: Seq<Seq<u32>>,
    j: int,
    p: int,
) -> (k: int)
    requires
        0 <= p < joint_points(influences, poses, j).len(),
    ensures
        0 <= k < influences.len(),
        influences[k].joint_index == j,
        joint_points(influences, poses, j)[p] == jointspace_point(influences[k], poses),
    decreases influences.len(),
{
    let before = influences.drop_last();
    if p < joint_points(before, poses, j).len() {
        let k = lemma_point_has_influence(before, poses, j, p);
        assert(before[k] == influences[k]);
        k
    } else {
        influences.len() - 1
    }
}

/// Every influence of a skin finds, among the boxes made for the skin, one of its own joint, and
/// that box contains its joint space position; on each axis on which no position that the joint
/// moves has a NaN.
pub proof fn law_boxes_contain_positions(
    asset: SkinnedAabbAsset,
    influences: Seq<InfluenceModel>,
    poses: Seq<Seq<u32>>,
    k: int,
) -> (a: int)
    requires
        asset.describes(influences, poses),
        0 <= k < influences.len(),
        0 <= influences[k].joint_index < poses.len(),
    ensures
        0 <= a < asset.aabbs@.len(),
        asset.joint_of(a) == Some(influences[k].joint_index),
        forall|i: int|
            0 <= i < 3 && (forall|p: int|
                0 <= p < joint_points(influences, poses, influences[k].joint_index).len()
                    ==> is_number(
                    #[trigger] joint_points(influences, poses, influences[k].joint_index)[p][i],
                )) ==> le(
                vec3_keys(asset.aabbs@[a].min)[i],
                #[trigger] jointspace_point(influences[k], poses)[i],
            ) && le(
                jointspace_point(influences[k], poses)[i],
                vec3_keys(asset.aabbs@[a].max)[i],
            ),
        (forall|p: int, i: int|
            0 <= p < joint_points(influences, poses, influences[k].joint_index).len() && 0 <= i < 3
                ==> is_number(
                #[trigger] joint_points(influences, poses, influences[k].joint_index)[p][i],
            )) ==> asset.aabbs@[a].holds(jointspace_point(influences[k], poses)),
{
    let j = influences[k].joint_index;
    let joints = skinned_joints(influences, poses.len() as int);
    law_skinned_joints(influences, poses.len() as int);
    assert(is_skinned(influences, j));
    assert(joints.contains(j));
    let a = choose|a: int| 0 <= a < joints.len() && joints[a] == j;
    assert(asset.aabb_index_to_joint_index@[a] == joints[a]);
    let points = joint_points(influences, poses, j);
    lemma_influence_has_point(influences, poses, k);
    let point = jointspace_point(influences[k], poses);
    let q = choose|q: int| 0 <= q < points.len() && points[q] == point;
    assert forall|i: int|
        0 <= i < 3 && (forall|p: int|
            0 <= p < points.len() ==> is_number(#[trigger] points[p][i])) implies le(
        vec3_keys(asset.aabbs@[a].min)[i],
        #[trigger] point[i],
    ) && le(point[i], vec3_keys(asset.aabbs@[a].max)[i]) by {
        law_bounds_are_tight(
            points,
            vec3_keys(asset.aabbs@[a].min),
            vec3_keys(asset.aabbs@[a].max),
            i,
        );
        assert(points[q][i] == point[i]);
    }
    a
}

/// The transform that is found for a box is that of the entity at the box's own joint index. There
/// is none exactly where the box or its joint is out of range, or the entity has no transform.
pub proof fn law_boxes_follow_their_own_joints(
    asset: SkinnedAabbAsset,
    a: int,
    entities: Seq<Entity>,
    transforms: Map<Entity, GlobalTransform>,
)
    ensures
        ({
            let found = asset.joint_transform(a, joint_transforms(entities, transforms));
            &&& found is Some <==> {
                &&& 0 <= a < asset.aabb_index_to_joint_index@.len()
                &&& asset.aabb_index_to_joint_index@[a] < entities.len()
                &&& transforms.dom().contains(entities[asset.aabb_index_to_joint_index@[a] as int])
            }
            &&& found matches Some(transform) ==> transform
                == transforms[entities[asset.aabb_index_to_joint_index@[a] as int]]
        }),
        asset.joint_of(a) is Some <==> 0 <= a < asset.aabb_index_to_joint_index@.len(),
        asset.joint_of(a) matches Some(j) ==> j == asset.aabb_index_to_joint_index@[a],
        joint_transforms(entities, transforms).len() == entities.len(),
        forall|j: int|
            0 <= j < entities.len() ==> {
                &&& (#[trigger] joint_transforms(entities, transforms)[j]) is Some
                    <==> transforms.dom().contains(entities[j])
                &&& joint_transforms(entities, transforms)[j] matches Some(transform) ==> transform
                    == transforms[entities[j]]
            },
{
}

/// Looking up the joint of a box in a list of transforms gives the entry at its own joint index.
pub proof fn law_boxes_look_up_their_own_joints(
    asset: SkinnedAabbAsset,
    a: int,
    joints: Seq<Option<GlobalTransform>>,
)
    ensures
        0 <= a < asset.aabb_index_to_joint_index@.len() && asset.aabb_index_to_joint_index@[a]
            < joints.len() ==> asset.joint_transform(a, joints)
            == joints[asset.aabb_index_to_joint_index@[a] as int],
        !(0 <= a < asset.aabb_index_to_joint_index@.len() && asset.aabb_index_to_joint_index@[a]
            < joints.len()) ==> asset.joint_transform(a, joints) is None,
{
}

/// The joints that get a box are exactly those that some influence names, each once and in ascending
/// order, and beside each box stands the index of its joint.
pub proof fn law_each_named_joint_has_one_box(
    asset: SkinnedAabbAsset,
    influences: Seq<InfluenceModel>,
    poses: Seq<Seq<u32>>,
)
    requires
        asset.describes(influences, poses),
    ensures
        asset.aabbs@.len() == asset.aabb_index_to_joint_index@.len(),
        forall|a: int, b: int|
            0 <= a < b < asset.aabbs@.len() ==> #[trigger] asset.aabb_index_to_joint_index@[a]
                < #[trigger] asset.aabb_index_to_joint_index@[b],
        forall|a: int|
            0 <= a < asset.aabbs@.len() ==> (#[trigger] asset.aabb_index_to_joint_index@[a])
                < poses.len() && exists|k: int|
                0 <= k < influences.len() && (#[trigger] influences[k]).joint_index
                    == asset.aabb_index_to_joint_index@[a],
        forall|k: int|
            0 <= k < influences.len() && 0 <= (#[trigger] influences[k]).joint_index < poses.len()
                ==> exists|a: int|
                0 <= a < asset.aabbs@.len() && #[trigger] asset.aabb_index_to_joint_index@[a]
                    == influences[k].joint_index,
{
    let joints = skinned_joints(influences, poses.len() as int);
    law_skinned_joints(influences, poses.len() as int);
    assert forall|a: int, b: int| 0 <= a < b < asset.aabbs@.len() implies
        #[trigger] asset.aabb_index_to_joint_index@[a]
        < #[trigger] asset.aabb_index_to_joint_index@[b] by {
        assert(joints[a] < joints[b]);
    }
    assert forall|a: int| 0 <= a < asset.aabbs@.len() implies (
    #[trigger] asset.aabb_index_to_joint_index@[a]) < poses.len() && exists|k: int|
        0 <= k < influences.len() && (#[trigger] influences[k]).joint_index
            == asset.aabb_index_to_joint_index@[a] by {
        assert(joints.contains(joints[a]));
    }
    assert forall|k: int|
        0 <= k < influences.len() && 0 <= (#[trigger] influences[k]).joint_index
            < poses.len() implies exists|a: int|
        0 <= a < asset.aabbs@.len() && #[trigger] asset.aabb_index_to_joint_index@[a]
            == influences[k].joint_index by {
        let j = influences[k].joint_index;
        assert(is_skinned(influences, j));
        assert(joints.contains(j));
        let a = choose|a: int| 0 <= a < joints.len() && joints[a] == j;
        assert(asset.aabb_index_to_joint_index@[a] == j);
    }
}

/// A box is the smallest around the positions that its joint moves, each carried into the space of
/// the joint by the inverse bind pose of that joint: it contains them all, and what is returned are
/// two influences of the joint that reach its lower and its upper corner on axis `i`.
///
/// It holds on each axis on which all these positions are numbers.
#[verifier::rlimit(40)]
pub proof fn law_boxes_are_smallest(
    asset: SkinnedAabbAsset,
    influences: Seq<InfluenceModel>,
    poses: Seq<Seq<u32>>,
    a: int,
    i: int,
) -> (reached: (int, int))
    requires
        asset.describes(influences, poses),
        0 <= a < asset.aabbs@.len(),
        0 <= i < 3,
        forall|k: int|
            0 <= k < influences.len() && (#[trigger] influences[k]).joint_index
                == asset.aabb_index_to_joint_index@[a] ==> is_number(
                point_transformed(
                    keys(poses[influences[k].joint_index], 16),
                    keys(influences[k].position, 3),
                )[i],
            ),
    ensures
        forall|k: int|
            0 <= k < influences.len() && (#[trigger] influences[k]).joint_index
                == asset.aabb_index_to_joint_index@[a] ==> {
                let point = point_transformed(
                    keys(poses[influences[k].joint_index], 16),
                    keys(influences[k].position, 3),
                );
                le(vec3_keys(asset.aabbs@[a].min)[i], point[i]) && le(
                    point[i],
                    vec3_keys(asset.aabbs@[a].max)[i],
                )
            },
        0 <= reached.0 < influences.len(),
        influences[reached.0].joint_index == asset.aabb_index_to_joint_index@[a],
        vec3_keys(asset.aabbs@[a].min)[i] == point_transformed(
            keys(poses[influences[reached.0].joint_index], 16),
            keys(influences[reached.0].position, 3),
        )[i],
        0 <= reached.1 < influences.len(),
        influences[reached.1].joint_index == asset.aabb_index_to_joint_index@[a],
        vec3_keys(asset.aabbs@[a].max)[i] == point_transformed(
            keys(poses[influences[reached.1].joint_index], 16),
            keys(influences[reached.1].position, 3),
        )[i],
{
    let j = asset.aabb_index_to_joint_index@[a] as int;
    let min = vec3_keys(asset.aabbs@[a].min);
    let max = vec3_keys(asset.aabbs@[a].max);
    let joints = skinned_joints(influences, poses.len() as int);
    let points = joint_points(influences, poses, j);
    law_each_named_joint_has_one_box(asset, influences, poses);
    assert(joints[a] == j);
    let k = choose|k: int| 0 <= k < influences.len() && (#[trigger] influences[k]).joint_index == j;
    lemma_influence_has_point(influences, poses, k);
    assert forall|p: int| 0 <= p < points.len() implies is_number(#[trigger] points[p][i]) by {
        let k = lemma_point_has_influence(influences, poses, j, p);
    }
    law_bounds_are_tight(points, min, max, i);
    assert forall|k: int|
        0 <= k < influences.len() && (#[trigger] influences[k]).joint_index == j implies {
        let point = point_transformed(
            keys(poses[influences[k].joint_index], 16),
            keys(influences[k].position, 3),
        );
        le(min[i], point[i]) && le(point[i], max[i])
    } by {
        lemma_influence_has_point(influences, poses, k);
        let point = jointspace_point(influences[k], poses);
        let q = choose|q: int| 0 <= q < points.len() && points[q] == point;
        assert(points[q][i] == point[i]);
    }
    let p = choose|p: int| 0 <= p < points.len() && #[trigger] points[p][i] == min[i];
    let q = choose|q: int| 0 <= q < points.len() && #[trigger] points[q][i] == max[i];
    (
        lemma_point_has_influence(influences, poses, j, p),
        lemma_point_has_influence(influences, poses, j, q),
    )
}

/// A skin is valid exactly where its mesh can be read and no influence names a joint that it lacks.
pub proof fn law_valid_skins_name_their_own_joints(mesh: Mesh, poses: Seq<Seq<u32>>)
    ensures
        skin_is_valid(mesh, poses) <==> mesh_is_readable(mesh) && forall|k: int|
            0 <= k < mesh_influences(mesh).len() ==> (#[trigger] mesh_influences(
                mesh,
            )[k]).joint_index < poses.len(),
{
}

/// What an error says of a skin is so: it comes only where the skin is not valid, and it names the
/// first influence of a joint that the skin lacks, with the number of joints that it has.
pub proof fn law_errors_say_what_is_wrong(e: SkinError, mesh: Mesh, poses: Seq<Seq<u32>>)
    requires
        is_skin_error(e, mesh, poses),
    ensures
        !skin_is_valid(mesh, poses),
        e == SkinError::MeshNotReadable <==> !mesh_is_readable(mesh),
        e matches SkinError::JointOutOfRange { joint_index, num_joints } ==> {
            &&& num_joints == poses.len()
            &&& exists|k: int|
                0 <= k < mesh_influences(mesh).len() && (#[trigger] mesh_influences(
                    mesh,
                )[k]).joint_index == joint_index && joint_index >= poses.len() && (forall|l: int|
                    0 <= l < k ==> (#[trigger] mesh_influences(mesh)[l]).joint_index < poses.len())
        },
{
}

/// The joints that have a box are listed each once and in ascending order.
pub proof fn law_boxed_joints_have_boxes(optional_aabbs: Seq<Option<Aabb3d>>, n: int)
    ensures
        forall|a: int, b: int|
            0 <= a < b < boxed_joints(optional_aabbs, n).len() ==> #[trigger] boxed_joints(
                optional_aabbs,
                n,
            )[a] < #[trigger] boxed_joints(optional_aabbs, n)[b],
        forall|j: int| #[trigger]
            boxed_joints(optional_aabbs, n).contains(j) <==> 0 <= j < n && optional_aabbs[j] is Some,
    decreases n,
{
    if n > 0 {
        law_boxed_joints_have_boxes(optional_aabbs, n - 1);
        let before = boxed_joints(optional_aabbs, n - 1);
        let now = boxed_joints(optional_aabbs, n);
        assert forall|j: int| #[trigger] now.contains(j) <==> 0 <= j < n && optional_aabbs[j] is Some
            by {
            if optional_aabbs[n - 1] is Some {
                assert(now[before.len() as int] == n - 1);
                if now.contains(j) && j != n - 1 {
                    let a = choose|a: int| 0 <= a < now.len() && now[a] == j;
                    assert(before[a] == j);
                }
                if before.contains(j) {
                    let a = choose|a: int| 0 <= a < before.len() && before[a] == j;
                    assert(now[a] == j);
                }
            }
            assert(before.contains(j) <==> 0 <= j < n - 1 && optional_aabbs[j] is Some);
        }
        assert forall|a: int, b: int| 0 <= a < b < now.len() implies #[trigger] now[a]
            < #[trigger] now[b] by {
            if b < before.len() {
                assert(now[a] == before[a] && now[b] == before[b]);
            } else {
                assert(before.contains(before[a]));
            }
        }
    }
}

} // verus!
