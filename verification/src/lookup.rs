//! What is looked up while bounding boxes are made and updated: loaded assets by their handles, and
//! the transforms of joints by their entities.
use bevy_asset::{Assets, UntypedHandle};
use bevy_ecs::entity::Entity;
use bevy_ecs::system::Query;
use bevy_mesh::skinning::{SkinnedMesh, SkinnedMeshInverseBindposes};
use bevy_mesh::Mesh;
use bevy_transform::components::GlobalTransform;
use vstd::prelude::*;

use crate::asset::{AssetKey, SkinnedAabbAsset};
use crate::store::handle_key;

verus! {

/// `bevy_ecs::entity::Entity`, which is passed on as it is.
#[verifier::external_type_specification]
#[verifier::external_body]
pub struct ExEntity(Entity);

/// `bevy_mesh::skinning::SkinnedMesh`, known by [`joint_entities`].
#[verifier::external_type_specification]
#[verifier::external_body]
pub struct ExSkinnedMesh(SkinnedMesh);

/// A `bevy_asset::Assets<Mesh>`, known by [`loaded_meshes`].
#[verifier::external_body]
pub struct MeshAssets<'a> {
    pub inner: &'a Assets<Mesh>,
}

/// A `bevy_asset::Assets<SkinnedMeshInverseBindposes>`, known by [`loaded_inverse_bindposes`].
#[verifier::external_body]
pub struct InverseBindposesAssets<'a> {
    pub inner: &'a Assets<SkinnedMeshInverseBindposes>,
}

/// A `bevy_asset::Assets<SkinnedAabbAsset>` that is only read, known by [`readable_assets`].
#[verifier::external_body]
pub struct SkinnedAabbAssetsRef<'a> {
    pub inner: &'a Assets<SkinnedAabbAsset>,
}

/// A `bevy_ecs::system::Query<&GlobalTransform>`, known by [`entity_transforms`].
#[verifier::external_body]
pub struct JointTransforms<'a, 'w, 's> {
    pub inner: &'a Query<'w, 's, &'static GlobalTransform>,
}

/// The meshes in the collection.
pub uninterp spec fn loaded_meshes(assets: MeshAssets) -> Map<AssetKey, Mesh>;

/// The inverse bind poses in the collection.
pub uninterp spec fn loaded_inverse_bindposes(assets: InverseBindposesAssets) -> Map<
    AssetKey,
    SkinnedMeshInverseBindposes,
>;

/// The assets in the collection.
pub uninterp spec fn readable_assets(assets: SkinnedAabbAssetsRef) -> Map<
    AssetKey,
    SkinnedAabbAsset,
>;

/// The entities that the query matches, each with its transform.
pub uninterp spec fn entity_transforms(joints: JointTransforms) -> Map<Entity, GlobalTransform>;

/// The entities of the joints, in the order of the joint indices.
pub uninterp spec fn joint_entities(skinned_mesh: SkinnedMesh) -> Seq<Entity>;

/// `Assets::get`: the mesh that a handle refers to, if the collection has it.
#[verifier::external_body]
pub(crate) fn get_mesh<'a>(assets: &MeshAssets<'a>, handle: &UntypedHandle) -> (r: Option<&'a Mesh>)
    ensures
        r is Some <==> loaded_meshes(*assets).dom().contains(handle_key(*handle)),
        r matches Some(mesh) ==> *mesh == loaded_meshes(*assets)[handle_key(*handle)],
{
    assets.inner.get(handle.id().typed_unchecked::<Mesh>())
}

/// `Assets::get`: the inverse bind poses that a handle refers to, if the collection has them.
#[verifier::external_body]
pub(crate) fn get_inverse_bindposes<'a>(
    assets: &InverseBindposesAssets<'a>,
    handle: &UntypedHandle,
) -> (r: Option<&'a SkinnedMeshInverseBindposes>)
    ensures
        r is Some <==> loaded_inverse_bindposes(*assets).dom().contains(handle_key(*handle)),
        r matches Some(poses) ==> *poses == loaded_inverse_bindposes(*assets)[handle_key(*handle)],
{
    assets.inner.get(handle.id().typed_unchecked::<SkinnedMeshInverseBindposes>())
}

/// `Assets::get`: the asset that a handle refers to, if the collection has it.
#[verifier::external_body]
pub(crate) fn get_asset<'a>(assets: &SkinnedAabbAssetsRef<'a>, handle: &UntypedHandle) -> (r: Option<
    &'a SkinnedAabbAsset,
>)
    ensures
        r is Some <==> readable_assets(*assets).dom().contains(handle_key(*handle)),
        r matches Some(asset) ==> *asset == readable_assets(*assets)[handle_key(*handle)],
{
    assets.inner.get(handle.id().typed_unchecked::<SkinnedAabbAsset>())
}

/// `Query::get`: the transform of an entity, if the query matches the entity.
#[verifier::external_body]
pub(crate) fn get_transform(joints: &JointTransforms, entity: Entity) -> (r: Option<GlobalTransform>)
    ensures
        r == entity_transforms(*joints).get(entity),
{
    joints.inner.get(entity).ok().copied()
}

/// The field `joints` of a `SkinnedMesh`.
#[verifier::external_body]
pub(crate) fn get_joint_entities(skinned_mesh: &SkinnedMesh) -> (r: &Vec<Entity>)
    ensures
        r@ == joint_entities(*skinned_mesh),
{
    &skinned_mesh.joints
}

} // verus!
