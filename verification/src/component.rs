//! Giving entities their bounding boxes.
use bevy_asset::UntypedHandle;
use bevy_ecs::entity::Entity;
use bevy_mesh::skinning::SkinnedMeshInverseBindposes;
use bevy_mesh::Mesh;
use vstd::prelude::*;

use crate::asset::{
    bindpose_lanes, is_skin_error, skin_is_valid, try_create_skinned_aabb_asset, AssetKey,
    SkinnedAabbAsset, SkinnedAabbSourceAssets,
};
use crate::influence::{mesh_influences, SkinError};
use crate::lookup::{
    get_inverse_bindposes, get_mesh, loaded_inverse_bindposes, loaded_meshes,
    InverseBindposesAssets, MeshAssets,
};
use crate::store::{
    add_asset, can_share, handle_key, has_match, is_first_match, is_match, key_of_handle, share_asset,
    shared_handle_count, slot, stored_assets, SkinnedAabbAssets,
};

verus! {

/// Refers to the boxes of the joints of an entity.
#[derive(Debug)]
pub struct SkinnedAabb {
    pub asset: UntypedHandle,
}

/// A skinned mesh: its mesh and its inverse bind poses, each `None` while it is not loaded, and the
/// assets that they are.
pub struct Skin<'a> {
    pub mesh: Option<&'a Mesh>,
    pub inverse_bindposes: Option<&'a SkinnedMeshInverseBindposes>,
    pub source: SkinnedAabbSourceAssets,
}

impl<'a> Skin<'a> {
    /// Whether both the mesh and the inverse bind poses are loaded.
    pub open spec fn is_loaded(self) -> bool {
        self.mesh is Some && self.inverse_bindposes is Some
    }

    /// Whether boxes can be made for a loaded skin.
    pub open spec fn is_valid(self) -> bool {
        skin_is_valid(*self.mesh->0, bindpose_lanes(*self.inverse_bindposes->0))
    }

    /// Whether `e` says why no boxes can be made for a loaded skin.
    pub open spec fn has_error(self, e: SkinError) -> bool {
        is_skin_error(e, *self.mesh->0, bindpose_lanes(*self.inverse_bindposes->0))
    }

    /// Whether `asset` holds the boxes of a loaded skin.
    pub open spec fn is_described_by(self, asset: SkinnedAabbAsset) -> bool {
        asset.source == self.source && asset.describes(
            mesh_influences(*self.mesh->0),
            bindpose_lanes(*self.inverse_bindposes->0),
        )
    }
}

/// The skin made from a mesh and inverse bind poses, as far as they are loaded.
pub open spec fn skin_at<'a>(
    meshes: Map<AssetKey, Mesh>,
    poses: Map<AssetKey, SkinnedMeshInverseBindposes>,
    source: SkinnedAabbSourceAssets,
) -> Skin<'a> {
    Skin {
        mesh: if meshes.dom().contains(source.mesh) {
            Some(&meshes[source.mesh])
        } else {
            None
        },
        inverse_bindposes: if poses.dom().contains(source.inverse_bindposes) {
            Some(&poses[source.inverse_bindposes])
        } else {
            None
        },
        source,
    }
}

/// The assets that two handles refer to.
pub open spec fn source_of(
    mesh: UntypedHandle,
    inverse_bindposes: UntypedHandle,
) -> SkinnedAabbSourceAssets {
    SkinnedAabbSourceAssets {
        mesh: handle_key(mesh),
        inverse_bindposes: handle_key(inverse_bindposes),
    }
}

/// Whether no handle count changes but that of `key`, which goes up by one.
pub open spec fn handle_is_counted(
    before: SkinnedAabbAssets,
    after: SkinnedAabbAssets,
    key: AssetKey,
) -> bool {
    forall|k: AssetKey| #[trigger]
        shared_handle_count(after, k) == shared_handle_count(before, k) + (if k == key {
            1nat
        } else {
            0nat
        })
}

/// What becomes of the collection, and which component an entity gets, when it has this skin:
/// none while the skin is not loaded; else a handle to the first asset made from the same sources,
/// or, if there is none, to a new asset.
pub open spec fn is_component_step(
    before: SkinnedAabbAssets,
    skin: Skin,
    component: Option<SkinnedAabb>,
    after: SkinnedAabbAssets,
) -> bool {
    let stored = stored_assets(before);
    if !skin.is_loaded() {
        component is None && after == before
    } else if has_match(stored, skin.source) {
        &&& component is Some
        &&& is_first_match(stored, skin.source, handle_key(component->0.asset))
        &&& stored_assets(after) == stored
        &&& handle_is_counted(before, after, handle_key(component->0.asset))
    } else {
        let key = handle_key(component->0.asset);
        let asset = stored_assets(after)[key];
        &&& component is Some
        &&& key is Index
        &&& !stored.dom().contains(key)
        &&& skin.is_valid()
        &&& skin.is_described_by(asset)
        &&& stored_assets(after) == stored.insert(key, asset)
        &&& shared_handle_count(after, key) == 0
        &&& forall|k: AssetKey| #[trigger]
            shared_handle_count(after, k) == shared_handle_count(before, k)
    }
}

/// What comes of giving an entity with this skin its component: an error exactly where a new asset
/// is needed for a skin for which no boxes can be made, and the collection then stays as it is.
pub open spec fn is_component_result(
    before: SkinnedAabbAssets,
    skin: Skin,
    r: Result<Option<SkinnedAabb>, SkinError>,
    after: SkinnedAabbAssets,
) -> bool {
    &&& r is Err <==> skin.is_loaded() && !has_match(stored_assets(before), skin.source)
        && !skin.is_valid()
    &&& r matches Ok(component) ==> is_component_step(before, skin, component, after)
    &&& r matches Err(e) ==> skin.has_error(e) && is_unchanged(before, after)
}

/// Whether the collection holds the same assets and has given out the same handles.
pub open spec fn is_unchanged(before: SkinnedAabbAssets, after: SkinnedAabbAssets) -> bool {
    &&& stored_assets(after) == stored_assets(before)
    &&& forall|k: AssetKey| #[trigger]
        shared_handle_count(after, k) == shared_handle_count(before, k)
}

/// The skin that two handles refer to, as far as it is loaded.
pub fn find_skin<'a>(
    mesh_assets: &MeshAssets<'a>,
    mesh_handle: &UntypedHandle,
    inverse_bindposes_assets: &InverseBindposesAssets<'a>,
    inverse_bindposes_handle: &UntypedHandle,
) -> (r: Skin<'a>)
    ensures
        r == skin_at(
            loaded_meshes(*mesh_assets),
            loaded_inverse_bindposes(*inverse_bindposes_assets),
            source_of(*mesh_handle, *inverse_bindposes_handle),
        ),
        r.source.mesh == handle_key(*mesh_handle),
        r.source.inverse_bindposes == handle_key(*inverse_bindposes_handle),
        r.mesh is Some <==> loaded_meshes(*mesh_assets).dom().contains(handle_key(*mesh_handle)),
        r.mesh matches Some(mesh) ==> *mesh == loaded_meshes(
            *mesh_assets,
        )[handle_key(*mesh_handle)],
        r.inverse_bindposes is Some <==> loaded_inverse_bindposes(
            *inverse_bindposes_assets,
        ).dom().contains(handle_key(*inverse_bindposes_handle)),
        r.inverse_bindposes matches Some(poses) ==> *poses == loaded_inverse_bindposes(
            *inverse_bindposes_assets,
        )[handle_key(*inverse_bindposes_handle)],
{
    Skin {
        mesh: get_mesh(mesh_assets, mesh_handle),
        inverse_bindposes: get_inverse_bindposes(
            inverse_bindposes_assets,
            inverse_bindposes_handle,
        ),
        source: SkinnedAabbSourceAssets {
            mesh: key_of_handle(mesh_handle),
            inverse_bindposes: key_of_handle(inverse_bindposes_handle),
        },
    }
}

/// The component of an entity with the given skin, if boxes can be made for that skin.
pub fn try_create_component_for_skin(assets: &mut SkinnedAabbAssets, skin: &Skin) -> (r: Result<
    Option<SkinnedAabb>,
    SkinError,
>)
    requires
        skin.is_loaded() ==> can_share(*old(assets), skin.source, 1),
    ensures
        is_component_result(*old(assets), *skin, r, *final(assets)),
{
    let (mesh, inverse_bindposes) = match (skin.mesh, skin.inverse_bindposes) {
        (Some(mesh), Some(inverse_bindposes)) => (mesh, inverse_bindposes),
        _ => {
            return Ok(None);
        },
    };

    // Share an existing asset that matches the source assets.

    if let Some(asset) = share_asset(assets, skin.source) {
        return Ok(Some(SkinnedAabb { asset }));
    }

    // No existing asset found so create a new one.

    match try_create_skinned_aabb_asset(
        mesh,
        skin.source.mesh,
        inverse_bindposes,
        skin.source.inverse_bindposes,
    ) {
        Ok(asset) => {
            assert(asset.source == skin.source);
            Ok(Some(SkinnedAabb { asset: add_asset(assets, asset) }))
        },
        Err(e) => Err(e),
    }
}

/// The component of an entity with the mesh and the inverse bind poses that the handles refer to,
/// if boxes can be made for them.
pub fn try_create_skinned_aabb_component(
    assets: &mut SkinnedAabbAssets,
    mesh_assets: &MeshAssets,
    mesh_handle: &UntypedHandle,
    inverse_bindposes_assets: &InverseBindposesAssets,
    inverse_bindposes_handle: &UntypedHandle,
) -> (r: Result<Option<SkinnedAabb>, SkinError>)
    requires
        ({
            let skin = skin_at(
                loaded_meshes(*mesh_assets),
                loaded_inverse_bindposes(*inverse_bindposes_assets),
                source_of(*mesh_handle, *inverse_bindposes_handle),
            );
            skin.is_loaded() ==> can_share(*old(assets), skin.source, 1)
        }),
    ensures
        is_component_result(
            *old(assets),
            skin_at(
                loaded_meshes(*mesh_assets),
                loaded_inverse_bindposes(*inverse_bindposes_assets),
                source_of(*mesh_handle, *inverse_bindposes_handle),
            ),
            r,
            *final(assets),
        ),
{
    let skin = find_skin(
        mesh_assets,
        mesh_handle,
        inverse_bindposes_assets,
        inverse_bindposes_handle,
    );
    try_create_component_for_skin(assets, &skin)
}

/// The component of an entity with the mesh and the inverse bind poses that the handles refer to;
/// none while they are not loaded.
pub fn create_skinned_aabb_component(
    assets: &mut SkinnedAabbAssets,
    mesh_assets: &MeshAssets,
    mesh_handle: &UntypedHandle,
    inverse_bindposes_assets: &InverseBindposesAssets,
    inverse_bindposes_handle: &UntypedHandle,
) -> (r: Option<SkinnedAabb>)
    requires
        ({
            let skin = skin_at(
                loaded_meshes(*mesh_assets),
                loaded_inverse_bindposes(*inverse_bindposes_assets),
                source_of(*mesh_handle, *inverse_bindposes_handle),
            );
            skin.is_loaded() ==> {
                &&& can_share(*old(assets), skin.source, 1)
                &&& has_match(stored_assets(*old(assets)), skin.source) || skin.is_valid()
            }
        }),
    ensures
        is_component_step(
            *old(assets),
            skin_at(
                loaded_meshes(*mesh_assets),
                loaded_inverse_bindposes(*inverse_bindposes_assets),
                source_of(*mesh_handle, *inverse_bindposes_handle),
            ),
            r,
            *final(assets),
        ),
{
    match try_create_skinned_aabb_component(
        assets,
        mesh_assets,
        mesh_handle,
        inverse_bindposes_assets,
        inverse_bindposes_handle,
    ) {
        Ok(component) => component,
        Err(_) => None,
    }
}

/// An entity with a mesh and inverse bind poses.
pub struct SkinnedEntity {
    pub entity: Entity,
    pub mesh: UntypedHandle,
    pub inverse_bindposes: UntypedHandle,
}

/// The skin of each entity, as far as it is loaded.
pub open spec fn skins_of<'a>(
    entities: Seq<SkinnedEntity>,
    meshes: Map<AssetKey, Mesh>,
    poses: Map<AssetKey, SkinnedMeshInverseBindposes>,
) -> Seq<Skin<'a>> {
    entities.map_values(
        |e: SkinnedEntity| skin_at(meshes, poses, source_of(e.mesh, e.inverse_bindposes)),
    )
}

/// How many of the skins from `i` on are loaded and made from `source`.
pub open spec fn demand(skins: Seq<Skin>, i: int, source: SkinnedAabbSourceAssets) -> int
    decreases skins.len() - i,
{
    if i < 0 || i >= skins.len() {
        0
    } else {
        demand(skins, i + 1, source) + (if skins[i].is_loaded() && skins[i].source == source {
            1int
        } else {
            0int
        })
    }
}

/// Whether entities with the first of these skins, one after the other, get these components, and
/// the collection goes through these states.
pub open spec fn is_run(
    skins: Seq<Skin>,
    components: Seq<Option<SkinnedAabb>>,
    states: Seq<SkinnedAabbAssets>,
) -> bool {
    &&& components.len() <= skins.len()
    &&& states.len() == components.len() + 1
    &&& forall|i: int|
        0 <= i < components.len() ==> is_component_step(
            states[i],
            skins[i],
            #[trigger] components[i],
            states[i + 1],
        )
}

/// The components that are there, each with its entity.
pub open spec fn insertions(
    entities: Seq<SkinnedEntity>,
    components: Seq<Option<SkinnedAabb>>,
) -> Seq<(Entity, SkinnedAabb)>
    decreases components.len(),
{
    if components.len() == 0 {
        seq![]
    } else {
        let before = insertions(entities, components.drop_last());
        match components.last() {
            Some(component) => before.push(
                (entities[components.len() - 1].entity, component),
            ),
            None => before,
        }
    }
}

/// Whether an asset made from `source` is there to be shared, or is once entities with the first
/// `n` of these skins have their components.
pub open spec fn is_provided(
    stored: Map<AssetKey, SkinnedAabbAsset>,
    skins: Seq<Skin>,
    n: int,
    source: SkinnedAabbSourceAssets,
) -> bool {
    has_match(stored, source) || exists|j: int|
        0 <= j < n && (#[trigger] skins[j]).is_loaded() && skins[j].source == source
}

/// Whether skin `i` needs a new asset for which no boxes can be made.
pub open spec fn fails_at(
    stored: Map<AssetKey, SkinnedAabbAsset>,
    skins: Seq<Skin>,
    i: int,
) -> bool {
    &&& 0 <= i < skins.len()
    &&& skins[i].is_loaded()
    &&& !is_provided(stored, skins, i, skins[i].source)
    &&& !skins[i].is_valid()
}

/// Whether the entities all get their components, these being those that are created.
pub open spec fn is_creation(
    before: SkinnedAabbAssets,
    entities: Seq<SkinnedEntity>,
    skins: Seq<Skin>,
    created: Seq<(Entity, SkinnedAabb)>,
    after: SkinnedAabbAssets,
) -> bool {
    exists|components: Seq<Option<SkinnedAabb>>, states: Seq<SkinnedAabbAssets>|
        {
            &&& #[trigger] is_run(skins, components, states)
            &&& components.len() == skins.len()
            &&& states.first() == before
            &&& states.last() == after
            &&& created == insertions(entities, components)
        }
}

/// Whether `e` says why the first entity that cannot be given a component cannot, after all
/// entities before it were given theirs.
pub open spec fn is_creation_failure(
    before: SkinnedAabbAssets,
    skins: Seq<Skin>,
    e: SkinError,
    after: SkinnedAabbAssets,
) -> bool {
    exists|components: Seq<Option<SkinnedAabb>>, states: Seq<SkinnedAabbAssets>|
        {
            let i = components.len() as int;
            &&& #[trigger] is_run(skins, components, states)
            &&& states.first() == before
            &&& fails_at(stored_assets(before), skins, i)
            &&& forall|l: int| 0 <= l < i ==> !#[trigger] fails_at(stored_assets(before), skins, l)
            &&& skins[i].has_error(e)
            &&& is_unchanged(states.last(), after)
        }
}

/// A step takes from the handles that can be shared no more than its own.
proof fn lemma_step_keeps_room(
    before: SkinnedAabbAssets,
    skin: Skin,
    component: Option<SkinnedAabb>,
    after: SkinnedAabbAssets,
    source: SkinnedAabbSourceAssets,
    n: int,
)
    requires
        is_component_step(before, skin, component, after),
        n >= 0,
        can_share(
            before,
            source,
            n + (if skin.is_loaded() && skin.source == source {
                1int
            } else {
                0int
            }),
        ),
    ensures
        can_share(after, source, n),
{
    let stored = stored_assets(before);
    let now = stored_assets(after);
    let key = handle_key(component->0.asset);
    if skin.is_loaded() && !has_match(stored, skin.source) {
        assert(is_match(now, skin.source, key));
        assert forall|k: AssetKey|
            #![trigger is_match(stored, source, k)]
            #![trigger is_match(now, source, k)]
            is_match(now, source, k) == (is_match(stored, source, k) || (source == skin.source
                && k == key)) by {}
        assert(has_match(stored, source) ==> has_match(now, source)) by {
            if has_match(stored, source) {
                let k = choose|k: AssetKey| is_match(stored, source, k);
                assert(is_match(now, source, k));
            }
        }
    }
    assert forall|k: AssetKey| #[trigger] is_first_match(now, source, k) implies
        shared_handle_count(after, k) + n <= u16::MAX by {
        if is_match(stored, source, k) {
            assert(is_first_match(stored, source, k)) by {
                assert forall|l: AssetKey| #[trigger]
                    is_match(stored, source, l) && l != k implies slot(k) < slot(l) by {
                    assert(is_match(now, source, l));
                }
            }
            if source == skin.source && skin.is_loaded() {
                assert(k == key);
            }
        }
    }
}

/// The demand is a count.
proof fn lemma_demand_is_a_count(
    skins: Seq<Skin>,
    i: int,
    source: SkinnedAabbSourceAssets,
)
    ensures
        demand(skins, i, source) >= 0,
    decreases skins.len() - i,
{
    if 0 <= i < skins.len() {
        lemma_demand_is_a_count(skins, i + 1, source);
    }
}

/// After a step there is an asset to be shared for the sources that had one, and for those of the
/// skin.
proof fn lemma_step_provides(
    before: SkinnedAabbAssets,
    skin: Skin,
    component: Option<SkinnedAabb>,
    after: SkinnedAabbAssets,
    source: SkinnedAabbSourceAssets,
)
    requires
        is_component_step(before, skin, component, after),
    ensures
        has_match(stored_assets(after), source) <==> has_match(stored_assets(before), source) || (
        skin.is_loaded() && skin.source == source),
{
    let stored = stored_assets(before);
    let now = stored_assets(after);
    if skin.is_loaded() && !has_match(stored, skin.source) {
        let key = handle_key(component->0.asset);
        assert(is_match(now, skin.source, key));
        if has_match(stored, source) {
            let k = choose|k: AssetKey| is_match(stored, source, k);
            assert(is_match(now, source, k));
        }
        if has_match(now, source) && source != skin.source {
            let k = choose|k: AssetKey| is_match(now, source, k);
            assert(is_match(stored, source, k));
        }
    }
}

/// Gives each entity whose mesh and inverse bind poses are loaded its component. Entities with the
/// same mesh and inverse bind poses share an asset.
///
/// It stops at the first entity for whose skin no boxes can be made.
pub fn create_skinned_aabbs(
    assets: &mut SkinnedAabbAssets,
    mesh_assets: &MeshAssets,
    inverse_bindposes_assets: &InverseBindposesAssets,
    entities: &Vec<SkinnedEntity>,
) -> (r: Result<Vec<(Entity, SkinnedAabb)>, SkinError>)
    requires
        forall|source: SkinnedAabbSourceAssets|
            can_share(
                *old(assets),
                source,
                #[trigger] demand(
                    skins_of(
                        entities@,
                        loaded_meshes(*mesh_assets),
                        loaded_inverse_bindposes(*inverse_bindposes_assets),
                    ),
                    0,
                    source,
                ),
            ),
    ensures
        ({
            let skins = skins_of(
                entities@,
                loaded_meshes(*mesh_assets),
                loaded_inverse_bindposes(*inverse_bindposes_assets),
            );
            &&& r is Err <==> exists|i: int| fails_at(stored_assets(*old(assets)), skins, i)
            &&& r matches Ok(created) ==> is_creation(
                *old(assets),
                entities@,
                skins,
                created@,
                *final(assets),
            )
            &&& r matches Err(e) ==> is_creation_failure(*old(assets), skins, e, *final(assets))
        }),
{
    let ghost skins = skins_of(
        entities@,
        loaded_meshes(*mesh_assets),
        loaded_inverse_bindposes(*inverse_bindposes_assets),
    );
    let ghost stored = stored_assets(*assets);
    let mut created: Vec<(Entity, SkinnedAabb)> = Vec::new();
    let ghost mut components: Seq<Option<SkinnedAabb>> = seq![];
    let ghost mut states: Seq<SkinnedAabbAssets> = seq![*assets];
    let mut i: usize = 0;
    while i < entities.len()
        invariant
            i <= entities@.len(),
            skins == skins_of(
                entities@,
                loaded_meshes(*mesh_assets),
                loaded_inverse_bindposes(*inverse_bindposes_assets),
            ),
            stored == stored_assets(*old(assets)),
            components.len() == i,
            is_run(skins, components, states),
            states.first() == *old(assets),
            states.last() == *assets,
            created@ == insertions(entities@, components),
            forall|source: SkinnedAabbSourceAssets|
                can_share(*assets, source, #[trigger] demand(skins, i as int, source)),
            forall|source: SkinnedAabbSourceAssets| #[trigger]
                has_match(stored_assets(*assets), source) <==> is_provided(
                    stored,
                    skins,
                    i as int,
                    source,
                ),
            forall|l: int| 0 <= l < i ==> !#[trigger] fails_at(stored, skins, l),
        decreases entities@.len() - i,
    {
        let ghost before = *assets;
        let skin = find_skin(
            mesh_assets,
            &entities[i].mesh,
            inverse_bindposes_assets,
            &entities[i].inverse_bindposes,
        );
        proof {
            assert(skin == skins[i as int]);
            lemma_demand_is_a_count(skins, i + 1, skin.source);
            assert(can_share(*assets, skin.source, demand(skins, i as int, skin.source)));
        }
        match try_create_component_for_skin(assets, &skin) {
            Ok(component) => {
                proof {
                    let components_before = components;
                    components = components.push(component);
                    states = states.push(*assets);
                    assert(components.drop_last() =~= components_before);
                    assert forall|l: int| 0 <= l < components.len() implies is_component_step(
                        states[l],
                        skins[l],
                        #[trigger] components[l],
                        states[l + 1],
                    ) by {
                        if l < components_before.len() {
                            assert(components[l] == components_before[l]);
                        }
                    }
                    assert forall|source: SkinnedAabbSourceAssets| can_share(
                        *assets,
                        source,
                        #[trigger] demand(skins, i + 1, source),
                    ) by {
                        assert(can_share(before, source, demand(skins, i as int, source)));
                        lemma_demand_is_a_count(skins, i + 1, source);
                        lemma_step_keeps_room(
                            before,
                            skin,
                            component,
                            *assets,
                            source,
                            demand(skins, i + 1, source),
                        );
                    }
                    assert forall|source: SkinnedAabbSourceAssets| #[trigger]
                        has_match(stored_assets(*assets), source) <==> is_provided(
                            stored,
                            skins,
                            i + 1,
                            source,
                        ) by {
                        lemma_step_provides(before, skin, component, *assets, source);
                        assert(has_match(stored_assets(before), source) <==> is_provided(
                            stored,
                            skins,
                            i as int,
                            source,
                        ));
                        assert(skins[i as int] == skin);
                    }
                }
                if let Some(skinned_aabb) = component {
                    created.push((entities[i].entity, skinned_aabb));
                }
            },
            Err(e) => {
                assert(fails_at(stored, skins, i as int));
                return Err(e);
            },
        }
        i += 1;
    }
    Ok(created)
}

} // verus!
