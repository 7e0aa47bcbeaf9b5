//! Which entities share the boxes of their joints.
use bevy_ecs::entity::Entity;
use bevy_mesh::skinning::SkinnedMeshInverseBindposes;
use bevy_mesh::Mesh;
use vstd::prelude::*;

use crate::asset::{
    bindpose_lanes, is_skin_error, skin_is_valid, AssetKey, SkinnedAabbAsset,
    SkinnedAabbSourceAssets,
};
use crate::component::{
    demand, fails_at, insertions, is_component_result, is_component_step, is_creation,
    is_creation_failure, is_run, is_unchanged, skin_at, skins_of, source_of, Skin, SkinnedAabb, SkinnedEntity,
};
use crate::influence::{mesh_influences, SkinError};
use crate::store::{
    handle_key, has_match, is_first_match, is_match, shared_handle_count, slot, stored_assets,
    SkinnedAabbAssets,
};

verus! {

/// Giving an entity its component leaves every stored asset as it is, and what the component
/// refers to is stored and was made from the sources of the entity's skin.
pub proof fn law_components_refer_to_stored_assets(
    before: SkinnedAabbAssets,
    skin: Skin,
    component: Option<SkinnedAabb>,
    after: SkinnedAabbAssets,
)
    requires
        is_component_step(before, skin, component, after),
    ensures
        stored_assets(before).submap_of(stored_assets(after)),
        component is Some <==> skin.is_loaded(),
        component matches Some(c) ==> is_first_match(
            stored_assets(after),
            skin.source,
            handle_key(c.asset),
        ),
{
    let stored = stored_assets(before);
    if skin.is_loaded() && !has_match(stored, skin.source) {
        let key = handle_key(component->0.asset);
        assert forall|k: AssetKey| #[trigger]
            is_match(stored_assets(after), skin.source, k) implies k == key by {
            if k != key {
                assert(is_match(stored, skin.source, k));
            }
        }
    }
}

/// Giving an entity its component changes nothing for other sources, nor for its own once an asset
/// is there for them: what was the first match stays the first match.
pub proof fn law_first_match_stays(
    before: SkinnedAabbAssets,
    skin: Skin,
    component: Option<SkinnedAabb>,
    after: SkinnedAabbAssets,
    source: SkinnedAabbSourceAssets,
    key: AssetKey,
)
    requires
        is_component_step(before, skin, component, after),
        is_first_match(stored_assets(before), source, key),
    ensures
        is_first_match(stored_assets(after), source, key),
{
    let stored = stored_assets(before);
    if skin.is_loaded() && !has_match(stored, skin.source) {
        assert(source != skin.source);
        assert forall|k: AssetKey| #[trigger]
            is_match(stored_assets(after), source, k) && k != key implies slot(key) < slot(k) by {
            assert(is_match(stored, source, k));
        }
    }
}

/// Whether no two assets with a place in the collection were made from the same sources.
pub open spec fn sources_are_distinct(stored: Map<AssetKey, SkinnedAabbAsset>) -> bool {
    forall|k: AssetKey, l: AssetKey|
        k is Index && l is Index && #[trigger] stored.dom().contains(k)
            && #[trigger] stored.dom().contains(l) && stored[k].source == stored[l].source
            ==> k == l
}

/// No second asset is made from the same sources, and what the component refers to is there and was
/// made from those of the skin.
pub proof fn law_sources_stay_distinct(
    before: SkinnedAabbAssets,
    skin: Skin,
    component: Option<SkinnedAabb>,
    after: SkinnedAabbAssets,
)
    requires
        is_component_step(before, skin, component, after),
        sources_are_distinct(stored_assets(before)),
    ensures
        sources_are_distinct(stored_assets(after)),
        component matches Some(c) ==> (stored_assets(after).get(handle_key(c.asset)) matches Some(
            asset,
        ) && asset.source == skin.source),
{
    let stored = stored_assets(before);
    let now = stored_assets(after);
    if skin.is_loaded() && !has_match(stored, skin.source) {
        let key = handle_key(component->0.asset);
        assert forall|k: AssetKey, l: AssetKey|
            k is Index && l is Index && #[trigger] now.dom().contains(k)
                && #[trigger] now.dom().contains(l) && now[k].source == now[l].source implies k
            == l by {
            assert(k != key ==> stored.dom().contains(k) && now[k] == stored[k]);
            assert(l != key ==> stored.dom().contains(l) && now[l] == stored[l]);
            assert(k != key && l == key ==> is_match(stored, skin.source, k));
            assert(l != key && k == key ==> is_match(stored, skin.source, l));
        }
    }
}

/// Whether every shareable asset whose sources are loaded holds the boxes of the skin that they
/// make up.
pub open spec fn assets_describe_skins(
    stored: Map<AssetKey, SkinnedAabbAsset>,
    meshes: Map<AssetKey, Mesh>,
    poses: Map<AssetKey, SkinnedMeshInverseBindposes>,
) -> bool {
    forall|k: AssetKey|
        k is Index && #[trigger] stored.dom().contains(k) && skin_at(
            meshes,
            poses,
            stored[k].source,
        ).is_loaded() ==> skin_at(meshes, poses, stored[k].source).is_described_by(stored[k])
}

/// As long as the loaded meshes and inverse bind poses stay as they are, every asset holds the
/// boxes of the skin of its sources, and so every component refers to the boxes of the skin of its
/// entity, whether its asset is new or shared.
pub proof fn law_components_describe_their_skins(
    meshes: Map<AssetKey, Mesh>,
    poses: Map<AssetKey, SkinnedMeshInverseBindposes>,
    source: SkinnedAabbSourceAssets,
    before: SkinnedAabbAssets,
    component: Option<SkinnedAabb>,
    after: SkinnedAabbAssets,
)
    requires
        assets_describe_skins(stored_assets(before), meshes, poses),
        is_component_step(before, skin_at(meshes, poses, source), component, after),
    ensures
        assets_describe_skins(stored_assets(after), meshes, poses),
        component matches Some(c) ==> {
            &&& stored_assets(after).dom().contains(handle_key(c.asset))
            &&& skin_at(meshes, poses, source).is_described_by(
                stored_assets(after)[handle_key(c.asset)],
            )
        },
{
    let stored = stored_assets(before);
    let now = stored_assets(after);
    let skin = skin_at(meshes, poses, source);
    if skin.is_loaded() && !has_match(stored, source) {
        let key = handle_key(component->0.asset);
        assert forall|k: AssetKey|
            k is Index && #[trigger] now.dom().contains(k) && skin_at(
                meshes,
                poses,
                now[k].source,
            ).is_loaded() implies skin_at(meshes, poses, now[k].source).is_described_by(now[k]) by {
            if k != key {
                assert(stored.dom().contains(k));
            }
        }
    }
}

/// Two entities of a run whose skins are loaded refer to the same asset exactly when their skins
/// are made from the same sources.
pub proof fn law_assets_are_shared_by_source(
    skins: Seq<Skin>,
    components: Seq<Option<SkinnedAabb>>,
    states: Seq<SkinnedAabbAssets>,
    i: int,
    j: int,
)
    requires
        is_run(skins, components, states),
        0 <= i < j < components.len(),
        skins[i].is_loaded(),
        skins[j].is_loaded(),
    ensures
        components[i] is Some,
        components[j] is Some,
        handle_key(components[i]->0.asset) == handle_key(components[j]->0.asset)
            <==> skins[i].source == skins[j].source,
{
    law_components_refer_to_stored_assets(states[i], skins[i], components[i], states[i + 1]);
    law_components_refer_to_stored_assets(states[j], skins[j], components[j], states[j + 1]);
    let key = handle_key(components[i]->0.asset);
    lemma_first_match_stays_in_run(
        skins,
        components,
        states,
        skins[i].source,
        key,
        i + 1,
        j + 1,
    );
}

/// From one state of a run to a later one, a first match stays the first match.
proof fn lemma_first_match_stays_in_run(
    skins: Seq<Skin>,
    components: Seq<Option<SkinnedAabb>>,
    states: Seq<SkinnedAabbAssets>,
    source: SkinnedAabbSourceAssets,
    key: AssetKey,
    from: int,
    to: int,
)
    requires
        is_run(skins, components, states),
        0 <= from <= to < states.len(),
        is_first_match(stored_assets(states[from]), source, key),
    ensures
        is_first_match(stored_assets(states[to]), source, key),
    decreases to - from,
{
    if from < to {
        lemma_first_match_stays_in_run(skins, components, states, source, key, from, to - 1);
        law_first_match_stays(
            states[to - 1],
            skins[to - 1],
            components[to - 1],
            states[to],
            source,
            key,
        );
    }
}

/// Whether the collection still holds an asset that it held before.
pub open spec fn still_holds(
    before: SkinnedAabbAssets,
    later: SkinnedAabbAssets,
    key: AssetKey,
) -> bool {
    &&& stored_assets(before).dom().contains(key)
    &&& stored_assets(later).dom().contains(key)
    &&& stored_assets(later)[key] == stored_assets(before)[key]
}

/// Once an entity with a skin has its component, another one with a skin made from the same sources
/// gets a handle to the same asset, and the collection keeps the assets that it has; as long as it
/// still holds that asset and no other from the same sources.
pub proof fn law_second_call_shares(
    before: SkinnedAabbAssets,
    skin: Skin,
    first: SkinnedAabb,
    after: SkinnedAabbAssets,
    later: SkinnedAabbAssets,
    again: Skin,
    second: Option<SkinnedAabb>,
    last: SkinnedAabbAssets,
)
    requires
        is_component_step(before, skin, Some(first), after),
        still_holds(after, later, handle_key(first.asset)),
        sources_are_distinct(stored_assets(later)),
        again.is_loaded(),
        again.source == skin.source,
        is_component_step(later, again, second, last),
    ensures
        second matches Some(second) && handle_key(second.asset) == handle_key(first.asset),
        stored_assets(last) == stored_assets(later),
{
    law_components_refer_to_stored_assets(before, skin, Some(first), after);
    let key = handle_key(first.asset);
    assert(is_match(stored_assets(later), skin.source, key));
    let found = handle_key(second->0.asset);
    assert(is_match(stored_assets(later), skin.source, found));
}

/// Entities with skins made from different sources, be it only the mesh or only the inverse bind
/// poses, get handles to different assets.
pub proof fn law_other_sources_get_other_assets(
    before: SkinnedAabbAssets,
    skin: Skin,
    first: SkinnedAabb,
    after: SkinnedAabbAssets,
    later: SkinnedAabbAssets,
    other: Skin,
    second: SkinnedAabb,
    last: SkinnedAabbAssets,
)
    requires
        is_component_step(before, skin, Some(first), after),
        still_holds(after, later, handle_key(first.asset)),
        other.source != skin.source,
        is_component_step(later, other, Some(second), last),
    ensures
        handle_key(second.asset) != handle_key(first.asset),
{
    law_components_refer_to_stored_assets(before, skin, Some(first), after);
    law_components_refer_to_stored_assets(later, other, Some(second), last);
}

/// Whether `key` is that of an asset that is in `now` and was not in `stored`.
pub open spec fn is_new(
    stored: Map<AssetKey, SkinnedAabbAsset>,
    now: Map<AssetKey, SkinnedAabbAsset>,
    key: AssetKey,
) -> bool {
    now.dom().contains(key) && !stored.dom().contains(key)
}

/// Whether from `stored` to `now` one asset was added for each of the sources of the first `n`
/// skins that are loaded and for which there was none to be shared, and nothing else changed.
pub open spec fn adds_new_sources(
    stored: Map<AssetKey, SkinnedAabbAsset>,
    now: Map<AssetKey, SkinnedAabbAsset>,
    skins: Seq<Skin>,
    n: int,
) -> bool {
    &&& stored.submap_of(now)
    &&& forall|k: AssetKey| #[trigger]
        is_new(stored, now, k) ==> {
            &&& k is Index
            &&& !has_match(stored, now[k].source)
            &&& exists|i: int|
                0 <= i < n && (#[trigger] skins[i]).is_loaded() && skins[i].source == now[k].source
        }
    &&& forall|i: int|
        0 <= i < n && (#[trigger] skins[i]).is_loaded() && !has_match(stored, skins[i].source)
            ==> exists|k: AssetKey| #[trigger]
            is_new(stored, now, k) && now[k].source == skins[i].source
    &&& forall|k: AssetKey, l: AssetKey|
        #![trigger is_new(stored, now, k), is_new(stored, now, l)]
        is_new(stored, now, k) && is_new(stored, now, l) && now[k].source == now[l].source ==> k
            == l
}

/// A run adds exactly one asset for each source that is new.
pub proof fn law_run_adds_new_sources(
    skins: Seq<Skin>,
    components: Seq<Option<SkinnedAabb>>,
    states: Seq<SkinnedAabbAssets>,
)
    requires
        is_run(skins, components, states),
    ensures
        adds_new_sources(
            stored_assets(states.first()),
            stored_assets(states.last()),
            skins,
            components.len() as int,
        ),
{
    lemma_run_adds_new_sources(skins, components, states, components.len() as int);
}

/// The first `n` steps of a run add exactly one asset for each source that is new.
proof fn lemma_run_adds_new_sources(
    skins: Seq<Skin>,
    components: Seq<Option<SkinnedAabb>>,
    states: Seq<SkinnedAabbAssets>,
    n: int,
)
    requires
        is_run(skins, components, states),
        0 <= n <= components.len(),
    ensures
        adds_new_sources(stored_assets(states[0]), stored_assets(states[n]), skins, n),
    decreases n,
{
    if n > 0 {
        lemma_run_adds_new_sources(skins, components, states, n - 1);
        let stored = stored_assets(states[0]);
        let before = stored_assets(states[n - 1]);
        let now = stored_assets(states[n]);
        let skin = skins[n - 1];
        let component = components[n - 1];
        let key = handle_key(component->0.asset);
        assert(is_component_step(states[n - 1], skin, component, states[n]));
        let adds = skin.is_loaded() && !has_match(before, skin.source);
        assert forall|k: AssetKey| #[trigger] stored.dom().contains(k) implies now.dom().contains(k)
            && stored[k] == now[k] by {
            assert(before.dom().contains(k));
        }
        assert forall|k: AssetKey| #[trigger] is_new(stored, now, k) <==> is_new(stored, before, k)
            || (adds && k == key) by {}
        assert forall|source: SkinnedAabbSourceAssets| #[trigger]
            has_match(stored, source) implies has_match(before, source) by {
            let k = choose|k: AssetKey| is_match(stored, source, k);
            assert(stored.dom().contains(k) && before.dom().contains(k));
            assert(is_match(before, source, k));
        }
        assert forall|k: AssetKey| #[trigger] is_new(stored, now, k) implies {
            &&& k is Index
            &&& !has_match(stored, now[k].source)
            &&& exists|i: int|
                0 <= i < n && (#[trigger] skins[i]).is_loaded() && skins[i].source == now[k].source
        } by {
            if is_new(stored, before, k) {
                let i = choose|i: int|
                    0 <= i < n - 1 && (#[trigger] skins[i]).is_loaded() && skins[i].source
                        == before[k].source;
                assert(skins[i].is_loaded() && skins[i].source == now[k].source);
            } else {
                assert(skins[n - 1].is_loaded() && skins[n - 1].source == now[k].source);
            }
        }
        assert forall|i: int|
            0 <= i < n && (#[trigger] skins[i]).is_loaded() && !has_match(
                stored,
                skins[i].source,
            ) implies exists|k: AssetKey| #[trigger]
            is_new(stored, now, k) && now[k].source == skins[i].source by {
            if i < n - 1 {
                let k = choose|k: AssetKey| #[trigger]
                    is_new(stored, before, k) && before[k].source == skins[i].source;
                assert(is_new(stored, now, k));
            } else if adds {
                assert(is_new(stored, now, key));
            } else {
                let k = choose|k: AssetKey| is_match(before, skin.source, k);
                assert(stored.dom().contains(k) ==> is_match(stored, skin.source, k));
                assert(is_new(stored, now, k));
            }
        }
        assert forall|k: AssetKey, l: AssetKey|
            #![trigger is_new(stored, now, k), is_new(stored, now, l)]
            is_new(stored, now, k) && is_new(stored, now, l) && now[k].source
                == now[l].source implies k == l by {
            if adds && k == key && l != key {
                assert(is_match(before, skin.source, l));
            } else if adds && l == key && k != key {
                assert(is_match(before, skin.source, k));
            } else if k != l {
                assert(is_new(stored, before, k) && is_new(stored, before, l));
            }
        }
    }
}

/// An entity gets its component in the run that finds its mesh and its inverse bind poses loaded,
/// however often they were not before.
pub proof fn law_components_come_with_their_sources(
    entities: Seq<SkinnedEntity>,
    meshes: Map<AssetKey, Mesh>,
    poses: Map<AssetKey, SkinnedMeshInverseBindposes>,
    components: Seq<Option<SkinnedAabb>>,
    states: Seq<SkinnedAabbAssets>,
    i: int,
)
    requires
        is_run(skins_of(entities, meshes, poses), components, states),
        0 <= i < components.len(),
    ensures
        components[i] is Some <==> meshes.dom().contains(handle_key(entities[i].mesh))
            && poses.dom().contains(handle_key(entities[i].inverse_bindposes)),
{
    let skin = skins_of(entities, meshes, poses)[i];
    assert(skin == skin_at(
        meshes,
        poses,
        source_of(entities[i].mesh, entities[i].inverse_bindposes),
    ));
    law_components_refer_to_stored_assets(states[i], skin, components[i], states[i + 1]);
}

/// Once a run has given entities their components, a further run with the same skins adds no asset,
/// and gives handles to the same assets.
pub proof fn law_further_run_adds_nothing(
    skins: Seq<Skin>,
    components: Seq<Option<SkinnedAabb>>,
    states: Seq<SkinnedAabbAssets>,
    further_components: Seq<Option<SkinnedAabb>>,
    further_states: Seq<SkinnedAabbAssets>,
)
    requires
        is_run(skins, components, states),
        components.len() == skins.len(),
        is_run(skins, further_components, further_states),
        stored_assets(further_states.first()) == stored_assets(states.last()),
    ensures
        stored_assets(further_states.last()) == stored_assets(states.last()),
        forall|i: int|
            0 <= i < further_components.len() ==> {
                &&& (#[trigger] further_components[i]) is Some <==> components[i] is Some
                &&& further_components[i] matches Some(further) ==> handle_key(further.asset)
                    == handle_key(components[i]->0.asset)
            },
{
    lemma_further_run(
        skins,
        components,
        states,
        further_components,
        further_states,
        further_components.len() as int,
    );
}

/// The first `n` steps of a further run add no asset, and give handles to the same assets.
proof fn lemma_further_run(
    skins: Seq<Skin>,
    components: Seq<Option<SkinnedAabb>>,
    states: Seq<SkinnedAabbAssets>,
    further_components: Seq<Option<SkinnedAabb>>,
    further_states: Seq<SkinnedAabbAssets>,
    n: int,
)
    requires
        is_run(skins, components, states),
        components.len() == skins.len(),
        is_run(skins, further_components, further_states),
        stored_assets(further_states.first()) == stored_assets(states.last()),
        0 <= n <= further_components.len(),
    ensures
        stored_assets(further_states[n]) == stored_assets(states.last()),
        forall|i: int|
            0 <= i < n ==> {
                &&& (#[trigger] further_components[i]) is Some <==> components[i] is Some
                &&& further_components[i] matches Some(further) ==> handle_key(further.asset)
                    == handle_key(components[i]->0.asset)
            },
    decreases n,
{
    if n > 0 {
        lemma_further_run(skins, components, states, further_components, further_states, n - 1);
        let i = n - 1;
        law_components_refer_to_stored_assets(states[i], skins[i], components[i], states[i + 1]);
        let step = is_component_step(
            further_states[i],
            skins[i],
            further_components[i],
            further_states[i + 1],
        );
        assert(step);
        if skins[i].is_loaded() {
            let key = handle_key(components[i]->0.asset);
            lemma_first_match_stays_in_run(
                skins,
                components,
                states,
                skins[i].source,
                key,
                i + 1,
                states.len() - 1,
            );
            assert(has_match(stored_assets(further_states[i]), skins[i].source));
        }
    }
}

/// A skin is loaded where its mesh and its inverse bind poses are there, and then these two decide
/// whether boxes can be made for it, why not, and which.
pub proof fn law_skins_are_their_mesh_and_poses(
    mesh: Mesh,
    poses: SkinnedMeshInverseBindposes,
    source: SkinnedAabbSourceAssets,
    e: SkinError,
    asset: SkinnedAabbAsset,
)
    ensures
        ({
            let skin = Skin { mesh: Some(&mesh), inverse_bindposes: Some(&poses), source };
            &&& skin.is_loaded()
            &&& skin.is_valid() <==> skin_is_valid(mesh, bindpose_lanes(poses))
            &&& skin.has_error(e) <==> is_skin_error(e, mesh, bindpose_lanes(poses))
            &&& skin.is_described_by(asset) <==> asset.source.mesh == source.mesh
                && asset.source.inverse_bindposes == source.inverse_bindposes && asset.describes(
                mesh_influences(mesh),
                bindpose_lanes(poses),
            )
        }),
        !(Skin { mesh: None, inverse_bindposes: Some(&poses), source }).is_loaded(),
        !(Skin { mesh: Some(&mesh), inverse_bindposes: None, source }).is_loaded(),
        !(Skin { mesh: None, inverse_bindposes: None, source }).is_loaded(),
{
}

/// The skin of an entity is made of what its own two handles refer to, as far as that is loaded.
pub proof fn law_skins_are_looked_up_by_their_handles(
    entities: Seq<SkinnedEntity>,
    meshes: Map<AssetKey, Mesh>,
    poses: Map<AssetKey, SkinnedMeshInverseBindposes>,
    i: int,
)
    requires
        0 <= i < entities.len(),
    ensures
        skins_of(entities, meshes, poses).len() == entities.len(),
        ({
            let skin = skins_of(entities, meshes, poses)[i];
            let mesh = handle_key(entities[i].mesh);
            let inverse_bindposes = handle_key(entities[i].inverse_bindposes);
            &&& skin.source.mesh == mesh
            &&& skin.source.inverse_bindposes == inverse_bindposes
            &&& skin == skin_at(meshes, poses, skin.source)
            &&& skin.mesh is Some <==> meshes.dom().contains(mesh)
            &&& skin.mesh matches Some(m) ==> *m == meshes[mesh]
            &&& skin.inverse_bindposes is Some <==> poses.dom().contains(inverse_bindposes)
            &&& skin.inverse_bindposes matches Some(p) ==> *p == poses[inverse_bindposes]
        }),
{
}

/// What giving an entity its component comes to. Without a mesh or without inverse bind poses there
/// is no component and nothing changes. Else there is one, and the asset that it refers to is in the
/// collection and made from the sources of the skin. If there was one from these sources before, with
/// a place, it is the lowest of them, nothing is added, and one more handle is counted for it. If
/// there was none, exactly this asset is added, and it holds the boxes of the skin.
pub proof fn law_component_step_in_full(
    before: SkinnedAabbAssets,
    skin: Skin,
    component: Option<SkinnedAabb>,
    after: SkinnedAabbAssets,
)
    requires
        is_component_step(before, skin, component, after),
    ensures
        component is Some <==> skin.mesh is Some && skin.inverse_bindposes is Some,
        component is None ==> after == before,
        component matches Some(c) ==> {
            let key = handle_key(c.asset);
            let stored = stored_assets(before);
            let now = stored_assets(after);
            &&& key is Index
            &&& now.dom().contains(key)
            &&& now[key].source.mesh == skin.source.mesh
            &&& now[key].source.inverse_bindposes == skin.source.inverse_bindposes
            &&& forall|k: AssetKey| #[trigger]
                now.dom().contains(k) <==> stored.dom().contains(k) || k == key
            &&& forall|k: AssetKey| #[trigger] stored.dom().contains(k) ==> now[k] == stored[k]
            &&& stored.dom().contains(key) ==> {
                &&& is_first_match(stored, skin.source, key)
                &&& forall|k: AssetKey| #[trigger]
                    shared_handle_count(after, k) == shared_handle_count(before, k) + (if k == key {
                        1int
                    } else {
                        0int
                    })
            }
            &&& !stored.dom().contains(key) ==> {
                &&& !has_match(stored, skin.source)
                &&& skin_is_valid(*skin.mesh->0, bindpose_lanes(*skin.inverse_bindposes->0))
                &&& now[key].describes(
                    mesh_influences(*skin.mesh->0),
                    bindpose_lanes(*skin.inverse_bindposes->0),
                )
                &&& forall|k: AssetKey| #[trigger]
                    shared_handle_count(after, k) == shared_handle_count(before, k)
            }
        },
{
    let stored = stored_assets(before);
    if let Some(c) = component {
        let key = handle_key(c.asset);
        if stored.dom().contains(key) {
            assert(has_match(stored, skin.source));
        } else if has_match(stored, skin.source) {
            assert(is_first_match(stored, skin.source, key));
        }
    }
}

/// An error comes exactly where a new asset is needed for a skin that is not valid. It says why, and
/// leaves the collection as it was.
pub proof fn law_errors_change_nothing(
    before: SkinnedAabbAssets,
    skin: Skin,
    r: Result<Option<SkinnedAabb>, SkinError>,
    after: SkinnedAabbAssets,
)
    requires
        is_component_result(before, skin, r, after),
    ensures
        r is Err <==> {
            &&& skin.mesh is Some
            &&& skin.inverse_bindposes is Some
            &&& !has_match(stored_assets(before), skin.source)
            &&& !skin_is_valid(*skin.mesh->0, bindpose_lanes(*skin.inverse_bindposes->0))
        },
        r matches Ok(component) ==> is_component_step(before, skin, component, after),
        r matches Err(e) ==> {
            &&& is_skin_error(e, *skin.mesh->0, bindpose_lanes(*skin.inverse_bindposes->0))
            &&& stored_assets(after) == stored_assets(before)
            &&& forall|k: AssetKey| #[trigger]
                shared_handle_count(after, k) == shared_handle_count(before, k)
        },
{
}

/// The components that are there go to their own entities, in order. What is returned says, for each,
/// of which entity it is.
proof fn lemma_insertions_are_by_entity(
    entities: Seq<SkinnedEntity>,
    components: Seq<Option<SkinnedAabb>>,
) -> (of: Seq<int>)
    ensures
        of.len() == insertions(entities, components).len(),
        forall|n: int, m: int| 0 <= n < m < of.len() ==> #[trigger] of[n] < #[trigger] of[m],
        forall|i: int| #[trigger]
            of.contains(i) <==> 0 <= i < components.len() && components[i] is Some,
        forall|n: int|
            0 <= n < of.len() ==> {
                &&& (#[trigger] insertions(entities, components)[n]).0 == entities[of[n]].entity
                &&& components[of[n]] == Some(insertions(entities, components)[n].1)
            },
    decreases components.len(),
{
    if components.len() == 0 {
        Seq::empty()
    } else {
        let last = components.len() - 1;
        let shorter = components.drop_last();
        let before = lemma_insertions_are_by_entity(entities, shorter);
        let of = if components[last] is Some {
            before.push(last)
        } else {
            before
        };
        assert forall|n: int, m: int| 0 <= n < m < of.len() implies #[trigger] of[n]
            < #[trigger] of[m] by {
            if m < before.len() {
                assert(before[n] < before[m]);
            } else {
                assert(before.contains(before[n]));
            }
        }
        assert forall|i: int| #[trigger]
            of.contains(i) <==> 0 <= i < components.len() && components[i] is Some by {
            if of.len() > before.len() {
                assert(of[before.len() as int] == last);
                if of.contains(i) && i != last {
                    let n = choose|n: int| 0 <= n < of.len() && of[n] == i;
                    assert(before[n] == i);
                }
                if before.contains(i) {
                    let n = choose|n: int| 0 <= n < before.len() && before[n] == i;
                    assert(of[n] == i);
                }
            }
            assert(before.contains(i) <==> 0 <= i < shorter.len() && shorter[i] is Some);
        }
        assert forall|n: int| 0 <= n < of.len() implies {
            &&& (#[trigger] insertions(entities, components)[n]).0 == entities[of[n]].entity
            &&& components[of[n]] == Some(insertions(entities, components)[n].1)
        } by {
            if n < before.len() {
                assert(before.contains(before[n]));
                assert(insertions(entities, components)[n] == insertions(entities, shorter)[n]);
                assert(shorter[before[n]] == components[before[n]]);
            }
        }
        of
    }
}

/// In each state of a run, an asset that was not there at first holds the boxes of one of the skins.
proof fn lemma_new_assets_describe_skins(
    skins: Seq<Skin>,
    components: Seq<Option<SkinnedAabb>>,
    states: Seq<SkinnedAabbAssets>,
    n: int,
)
    requires
        is_run(skins, components, states),
        0 <= n <= components.len(),
    ensures
        stored_assets(states[0]).submap_of(stored_assets(states[n])),
        forall|k: AssetKey| #[trigger]
            is_new(stored_assets(states[0]), stored_assets(states[n]), k) ==> exists|i: int|
                0 <= i < n && (#[trigger] skins[i]).is_loaded() && skins[i].is_described_by(
                    stored_assets(states[n])[k],
                ),
    decreases n,
{
    if n > 0 {
        lemma_new_assets_describe_skins(skins, components, states, n - 1);
        let stored = stored_assets(states[0]);
        let before = stored_assets(states[n - 1]);
        let now = stored_assets(states[n]);
        let skin = skins[n - 1];
        assert(is_component_step(states[n - 1], skin, components[n - 1], states[n]));
        law_components_refer_to_stored_assets(states[n - 1], skin, components[n - 1], states[n]);
        assert forall|k: AssetKey| #[trigger] stored.dom().contains(k) implies now.dom().contains(k)
            && stored[k] == now[k] by {
            assert(before.dom().contains(k));
        }
        assert forall|k: AssetKey| #[trigger] is_new(stored, now, k) implies exists|i: int|
            0 <= i < n && (#[trigger] skins[i]).is_loaded() && skins[i].is_described_by(now[k]) by {
            if before.dom().contains(k) {
                assert(is_new(stored, before, k));
                let i = choose|i: int|
                    0 <= i < n - 1 && (#[trigger] skins[i]).is_loaded() && skins[i].is_described_by(
                        before[k],
                    );
                assert(skins[i].is_loaded() && skins[i].is_described_by(now[k]));
            } else {
                assert(skins[n - 1].is_loaded() && skins[n - 1].is_described_by(now[k]));
            }
        }
    }
}

/// Every entity whose mesh and inverse bind poses are loaded is in the result, once, in order and
/// under its own name, and no other is; its component refers to an asset in the collection that was
/// made from its own mesh and its own inverse bind poses. If there was such an asset before, it is
/// still the same and the lowest of them; else it is new and holds the boxes of the entity's skin.
/// Nothing that was in the collection changes. What is returned says of which entity each component
/// is.
pub proof fn law_each_entity_gets_its_own_component(
    before: SkinnedAabbAssets,
    entities: Seq<SkinnedEntity>,
    meshes: Map<AssetKey, Mesh>,
    poses: Map<AssetKey, SkinnedMeshInverseBindposes>,
    created: Seq<(Entity, SkinnedAabb)>,
    after: SkinnedAabbAssets,
) -> (of: Seq<int>)
    requires
        is_creation(before, entities, skins_of(entities, meshes, poses), created, after),
    ensures
        of.len() == created.len(),
        forall|n: int, m: int| 0 <= n < m < of.len() ==> #[trigger] of[n] < #[trigger] of[m],
        forall|i: int| #[trigger]
            of.contains(i) <==> {
                &&& 0 <= i < entities.len()
                &&& meshes.dom().contains(handle_key(entities[i].mesh))
                &&& poses.dom().contains(handle_key(entities[i].inverse_bindposes))
            },
        forall|k: AssetKey| #[trigger]
            stored_assets(before).dom().contains(k) ==> stored_assets(after).dom().contains(k)
                && stored_assets(after)[k] == stored_assets(before)[k],
        forall|n: int|
            0 <= n < created.len() ==> {
                let entity = entities[of[n]];
                let mesh = handle_key(entity.mesh);
                let inverse_bindposes = handle_key(entity.inverse_bindposes);
                let key = handle_key((#[trigger] created[n]).1.asset);
                &&& created[n].0 == entity.entity
                &&& key is Index
                &&& stored_assets(after).dom().contains(key)
                &&& stored_assets(after)[key].source.mesh == mesh
                &&& stored_assets(after)[key].source.inverse_bindposes == inverse_bindposes
                &&& stored_assets(before).dom().contains(key) ==> is_first_match(
                    stored_assets(before),
                    SkinnedAabbSourceAssets { mesh, inverse_bindposes },
                    key,
                )
                &&& !stored_assets(before).dom().contains(key) ==> {
                    &&& !has_match(
                        stored_assets(before),
                        SkinnedAabbSourceAssets { mesh, inverse_bindposes },
                    )
                    &&& stored_assets(after)[key].describes(
                        mesh_influences(meshes[mesh]),
                        bindpose_lanes(poses[inverse_bindposes]),
                    )
                }
            },
{
    let skins = skins_of(entities, meshes, poses);
    let (components, states) = choose|
        components: Seq<Option<SkinnedAabb>>,
        states: Seq<SkinnedAabbAssets>,
    |
        {
            &&& #[trigger] is_run(skins, components, states)
            &&& components.len() == skins.len()
            &&& states.first() == before
            &&& states.last() == after
            &&& created == insertions(entities, components)
        };
    let of = lemma_insertions_are_by_entity(entities, components);
    let len = components.len() as int;
    let stored = stored_assets(before);
    let now = stored_assets(after);
    lemma_new_assets_describe_skins(skins, components, states, len);
    law_run_adds_new_sources(skins, components, states);
    assert forall|i: int| #[trigger] of.contains(i) <==> {
        &&& 0 <= i < entities.len()
        &&& meshes.dom().contains(handle_key(entities[i].mesh))
        &&& poses.dom().contains(handle_key(entities[i].inverse_bindposes))
    } by {
        if 0 <= i < entities.len() {
            law_components_come_with_their_sources(entities, meshes, poses, components, states, i);
        }
    }
    assert forall|k: AssetKey| #[trigger] stored.dom().contains(k) implies now.dom().contains(k)
        && now[k] == stored[k] by {}
    assert forall|n: int| 0 <= n < created.len() implies {
        let entity = entities[of[n]];
        let mesh = handle_key(entity.mesh);
        let inverse_bindposes = handle_key(entity.inverse_bindposes);
        let key = handle_key((#[trigger] created[n]).1.asset);
        &&& created[n].0 == entity.entity
        &&& key is Index
        &&& now.dom().contains(key)
        &&& now[key].source.mesh == mesh
        &&& now[key].source.inverse_bindposes == inverse_bindposes
        &&& stored.dom().contains(key) ==> is_first_match(
            stored,
            SkinnedAabbSourceAssets { mesh, inverse_bindposes },
            key,
        )
        &&& !stored.dom().contains(key) ==> {
            &&& !has_match(stored, SkinnedAabbSourceAssets { mesh, inverse_bindposes })
            &&& now[key].describes(
                mesh_influences(meshes[mesh]),
                bindpose_lanes(poses[inverse_bindposes]),
            )
        }
    } by {
        let i = of[n];
        assert(of.contains(i));
        assert(created[n] == insertions(entities, components)[n]);
        let skin = skins[i];
        let key = handle_key(created[n].1.asset);
        law_skins_are_looked_up_by_their_handles(entities, meshes, poses, i);
        let source = SkinnedAabbSourceAssets {
            mesh: handle_key(entities[i].mesh),
            inverse_bindposes: handle_key(entities[i].inverse_bindposes),
        };
        assert(skin.source == source);
        law_components_refer_to_stored_assets(states[i], skin, components[i], states[i + 1]);
        lemma_first_match_stays_in_run(skins, components, states, source, key, i + 1, len);
        assert(is_first_match(now, source, key));
        if stored.dom().contains(key) {
            assert forall|k: AssetKey| #[trigger] is_match(stored, source, k) && k
                != key implies slot(key) < slot(k) by {
                assert(now.dom().contains(k));
                assert(is_match(now, source, k));
            }
            assert(is_match(stored, source, key));
            assert(is_first_match(stored, source, key));
        } else {
            assert(is_new(stored, now, key));
            let j = choose|j: int|
                0 <= j < len && (#[trigger] skins[j]).is_loaded() && skins[j].is_described_by(
                    now[key],
                );
            law_skins_are_looked_up_by_their_handles(entities, meshes, poses, j);
            assert(skins[j].source == source);
            assert(skins[j] == skin);
        }
    }
    of
}

/// A creation fails at a skin exactly where it is loaded and not valid, and there is no asset to be
/// shared for it: neither from before, nor from an earlier skin made from the same sources.
pub proof fn law_creation_fails_where_a_new_asset_cannot_be_made(
    stored: Map<AssetKey, SkinnedAabbAsset>,
    skins: Seq<Skin>,
    i: int,
)
    ensures
        fails_at(stored, skins, i) <==> {
            &&& 0 <= i < skins.len()
            &&& skins[i].mesh is Some
            &&& skins[i].inverse_bindposes is Some
            &&& !skin_is_valid(
                *skins[i].mesh->0,
                bindpose_lanes(*skins[i].inverse_bindposes->0),
            )
            &&& !has_match(stored, skins[i].source)
            &&& forall|j: int|
                0 <= j < i && (#[trigger] skins[j]).mesh is Some && skins[j].inverse_bindposes is Some
                    ==> skins[j].source != skins[i].source
        },
{
    if 0 <= i < skins.len() && exists|j: int|
        0 <= j < i && (#[trigger] skins[j]).is_loaded() && skins[j].source == skins[i].source {
        let j = choose|j: int|
            0 <= j < i && (#[trigger] skins[j]).is_loaded() && skins[j].source == skins[i].source;
        assert(skins[j].mesh is Some);
    }
    if fails_at(stored, skins, i) {
        assert forall|j: int|
            0 <= j < i && (#[trigger] skins[j]).mesh is Some
                && skins[j].inverse_bindposes is Some implies skins[j].source
            != skins[i].source by {
            assert(skins[j].is_loaded());
        }
    }
}

/// Where a creation fails, its error is that of the first skin at which it does, which is returned;
/// the skins before it have got their assets, one for each source that is new, and nothing else in
/// the collection has changed.
pub proof fn law_creation_fails_at_the_first(
    before: SkinnedAabbAssets,
    skins: Seq<Skin>,
    e: SkinError,
    after: SkinnedAabbAssets,
) -> (i: int)
    requires
        is_creation_failure(before, skins, e, after),
    ensures
        fails_at(stored_assets(before), skins, i),
        forall|l: int| 0 <= l < i ==> !#[trigger] fails_at(stored_assets(before), skins, l),
        is_skin_error(e, *skins[i].mesh->0, bindpose_lanes(*skins[i].inverse_bindposes->0)),
        adds_new_sources(stored_assets(before), stored_assets(after), skins, i),
{
    let (components, states) = choose|
        components: Seq<Option<SkinnedAabb>>,
        states: Seq<SkinnedAabbAssets>,
    |
        {
            let i = components.len() as int;
            &&& #[trigger] is_run(skins, components, states)
            &&& states.first() == before
            &&& fails_at(stored_assets(before), skins, i)
            &&& forall|l: int| 0 <= l < i ==> !#[trigger] fails_at(stored_assets(before), skins, l)
            &&& skins[i].has_error(e)
            &&& is_unchanged(states.last(), after)
        };
    law_run_adds_new_sources(skins, components, states);
    components.len() as int
}

/// One asset is added for each new source, in full: what was there stays; what is new has a place and
/// was made from the sources of one of the first `n` skins, loaded and with none to be shared before;
/// each of these has one; and no two new ones are made from the same sources.
pub proof fn law_added_assets_in_full(
    stored: Map<AssetKey, SkinnedAabbAsset>,
    now: Map<AssetKey, SkinnedAabbAsset>,
    skins: Seq<Skin>,
    n: int,
)
    requires
        adds_new_sources(stored, now, skins, n),
    ensures
        forall|k: AssetKey| #[trigger]
            stored.dom().contains(k) ==> now.dom().contains(k) && now[k] == stored[k],
        forall|k: AssetKey| #[trigger]
            now.dom().contains(k) && !stored.dom().contains(k) ==> {
                &&& k is Index
                &&& !has_match(stored, now[k].source)
                &&& exists|i: int|
                    0 <= i < n && (#[trigger] skins[i]).mesh is Some
                        && skins[i].inverse_bindposes is Some && skins[i].source == now[k].source
            },
        forall|i: int|
            0 <= i < n && (#[trigger] skins[i]).mesh is Some && skins[i].inverse_bindposes is Some
                && !has_match(stored, skins[i].source) ==> exists|k: AssetKey| #[trigger]
                now.dom().contains(k) && !stored.dom().contains(k) && now[k].source
                    == skins[i].source,
        forall|k: AssetKey, l: AssetKey| #[trigger]
            now.dom().contains(k) && #[trigger] now.dom().contains(l) && !stored.dom().contains(k)
                && !stored.dom().contains(l) && now[k].source == now[l].source ==> k == l,
{
    assert forall|k: AssetKey| #[trigger]
        now.dom().contains(k) && !stored.dom().contains(k) implies {
        &&& k is Index
        &&& !has_match(stored, now[k].source)
        &&& exists|i: int|
            0 <= i < n && (#[trigger] skins[i]).mesh is Some && skins[i].inverse_bindposes is Some
                && skins[i].source == now[k].source
    } by {
        assert(is_new(stored, now, k));
        let i = choose|i: int|
            0 <= i < n && (#[trigger] skins[i]).is_loaded() && skins[i].source == now[k].source;
        assert(skins[i].mesh is Some);
    }
    assert forall|i: int|
        0 <= i < n && (#[trigger] skins[i]).mesh is Some && skins[i].inverse_bindposes is Some
            && !has_match(stored, skins[i].source) implies exists|k: AssetKey| #[trigger]
        now.dom().contains(k) && !stored.dom().contains(k) && now[k].source == skins[i].source by {
        assert(skins[i].is_loaded());
        let k = choose|k: AssetKey| #[trigger]
            is_new(stored, now, k) && now[k].source == skins[i].source;
        assert(now.dom().contains(k));
    }
    assert forall|k: AssetKey, l: AssetKey| #[trigger]
        now.dom().contains(k) && #[trigger] now.dom().contains(l) && !stored.dom().contains(k)
            && !stored.dom().contains(l) && now[k].source == now[l].source implies k == l by {
        assert(is_new(stored, now, k) && is_new(stored, now, l));
    }
}

/// The demand for handles is the number of skins, from `i` on, that are loaded and made from the
/// source. What is returned are these skins.
pub proof fn law_demand_counts_loaded_skins(
    skins: Seq<Skin>,
    i: int,
    source: SkinnedAabbSourceAssets,
) -> (counted: Seq<int>)
    requires
        0 <= i,
    ensures
        demand(skins, i, source) == counted.len(),
        forall|n: int, m: int|
            0 <= n < m < counted.len() ==> #[trigger] counted[n] < #[trigger] counted[m],
        forall|j: int| #[trigger]
            counted.contains(j) <==> i <= j < skins.len() && skins[j].mesh is Some
                && skins[j].inverse_bindposes is Some && skins[j].source == source,
    decreases skins.len() - i,
{
    if i >= skins.len() {
        Seq::empty()
    } else {
        let later = law_demand_counts_loaded_skins(skins, i + 1, source);
        if skins[i].mesh is Some && skins[i].inverse_bindposes is Some && skins[i].source
            == source {
            let counted = seq![i] + later;
            assert forall|n: int, m: int| 0 <= n < m < counted.len() implies #[trigger] counted[n]
                < #[trigger] counted[m] by {
                assert(counted[m] == later[m - 1]);
                assert(later.contains(later[m - 1]));
                if n > 0 {
                    assert(counted[n] == later[n - 1]);
                }
            }
            assert forall|j: int| #[trigger]
                counted.contains(j) <==> i <= j < skins.len() && skins[j].mesh is Some
                    && skins[j].inverse_bindposes is Some && skins[j].source == source by {
                assert(counted[0] == i);
                if counted.contains(j) && j != i {
                    let n = choose|n: int| 0 <= n < counted.len() && counted[n] == j;
                    assert(later[n - 1] == j);
                }
                if later.contains(j) {
                    let n = choose|n: int| 0 <= n < later.len() && later[n] == j;
                    assert(counted[n + 1] == j);
                }
                assert(later.contains(j) <==> i + 1 <= j < skins.len() && skins[j].mesh is Some
                    && skins[j].inverse_bindposes is Some && skins[j].source == source);
            }
            counted
        } else {
            assert forall|j: int| #[trigger]
                later.contains(j) <==> i <= j < skins.len() && skins[j].mesh is Some
                    && skins[j].inverse_bindposes is Some && skins[j].source == source by {
                assert(later.contains(j) <==> i + 1 <= j < skins.len() && skins[j].mesh is Some
                    && skins[j].inverse_bindposes is Some && skins[j].source == source);
            }
            later
        }
    }
}

/// The handles that a creation gives out to an asset are counted, but for the one that comes with a
/// new asset. What is returned are the components that refer to the asset.
pub proof fn law_shared_handles_are_counted(
    before: SkinnedAabbAssets,
    entities: Seq<SkinnedEntity>,
    meshes: Map<AssetKey, Mesh>,
    poses: Map<AssetKey, SkinnedMeshInverseBindposes>,
    created: Seq<(Entity, SkinnedAabb)>,
    after: SkinnedAabbAssets,
    key: AssetKey,
) -> (uses: Seq<int>)
    requires
        is_creation(before, entities, skins_of(entities, meshes, poses), created, after),
    ensures
        forall|n: int, m: int| 0 <= n < m < uses.len() ==> #[trigger] uses[n] < #[trigger] uses[m],
        forall|n: int| #[trigger]
            uses.contains(n) <==> 0 <= n < created.len() && handle_key(created[n].1.asset) == key,
        shared_handle_count(after, key) == shared_handle_count(before, key) + uses.len() - (if
        stored_assets(after).dom().contains(key) && !stored_assets(before).dom().contains(key) {
            1int
        } else {
            0int
        }),
{
    let skins = skins_of(entities, meshes, poses);
    let (components, states) = choose|
        components: Seq<Option<SkinnedAabb>>,
        states: Seq<SkinnedAabbAssets>,
    |
        {
            &&& #[trigger] is_run(skins, components, states)
            &&& components.len() == skins.len()
            &&& states.first() == before
            &&& states.last() == after
            &&& created == insertions(entities, components)
        };
    let uses = lemma_handles_are_counted(
        skins,
        entities,
        components,
        states,
        components.len() as int,
        key,
    );
    assert(components.take(components.len() as int) =~= components);
    uses
}

/// The handles that the first `n` steps of a run give out to an asset are counted, but for the one
/// that comes with a new asset.
proof fn lemma_handles_are_counted(
    skins: Seq<Skin>,
    entities: Seq<SkinnedEntity>,
    components: Seq<Option<SkinnedAabb>>,
    states: Seq<SkinnedAabbAssets>,
    n: int,
    key: AssetKey,
) -> (uses: Seq<int>)
    requires
        is_run(skins, components, states),
        0 <= n <= components.len(),
    ensures
        forall|a: int, b: int| 0 <= a < b < uses.len() ==> #[trigger] uses[a] < #[trigger] uses[b],
        forall|a: int| #[trigger]
            uses.contains(a) <==> 0 <= a < insertions(entities, components.take(n)).len()
                && handle_key(insertions(entities, components.take(n))[a].1.asset) == key,
        shared_handle_count(states[n], key) == shared_handle_count(states[0], key) + uses.len() - (
        if is_new(stored_assets(states[0]), stored_assets(states[n]), key) {
            1int
        } else {
            0int
        }),
        stored_assets(states[0]).submap_of(stored_assets(states[n])),
    decreases n,
{
    if n == 0 {
        Seq::empty()
    } else {
        let before = lemma_handles_are_counted(
            skins,
            entities,
            components,
            states,
            n - 1,
            key,
        );
        let component = components[n - 1];
        let earlier = insertions(entities, components.take(n - 1));
        let now = insertions(entities, components.take(n));
        assert(components.take(n).drop_last() =~= components.take(n - 1));
        assert(is_component_step(states[n - 1], skins[n - 1], component, states[n]));
        law_component_step_in_full(states[n - 1], skins[n - 1], component, states[n]);
        lemma_new_assets_describe_skins(skins, components, states, n);
        lemma_new_assets_describe_skins(skins, components, states, n - 1);
        assert(stored_assets(states[0]).dom().contains(key) ==> stored_assets(
            states[n - 1],
        ).dom().contains(key));
        let uses = if component is Some && handle_key(component->0.asset) == key {
            before.push(earlier.len() as int)
        } else {
            before
        };
        assert forall|a: int, b: int| 0 <= a < b < uses.len() implies #[trigger] uses[a]
            < #[trigger] uses[b] by {
            if b < before.len() {
                assert(before[a] < before[b]);
            } else {
                assert(before.contains(before[a]));
            }
        }
        assert forall|a: int| #[trigger]
            uses.contains(a) <==> 0 <= a < now.len() && handle_key(now[a].1.asset) == key by {
            if uses.len() > before.len() {
                assert(uses[before.len() as int] == earlier.len());
                if uses.contains(a) && a != earlier.len() {
                    let b = choose|b: int| 0 <= b < uses.len() && uses[b] == a;
                    assert(before[b] == a);
                }
                if before.contains(a) {
                    let b = choose|b: int| 0 <= b < before.len() && before[b] == a;
                    assert(uses[b] == a);
                }
            }
            assert(before.contains(a) <==> 0 <= a < earlier.len() && handle_key(
                earlier[a].1.asset,
            ) == key);
            if 0 <= a < earlier.len() {
                assert(now[a] == earlier[a]);
            }
        }
        uses
    }
}

} // verus!
