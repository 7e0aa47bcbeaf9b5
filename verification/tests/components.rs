use bevy_asset::uuid::Uuid;
use bevy_asset::{AssetId, Assets, Handle, RenderAssetUsages, UntypedHandle};
use bevy_ecs::entity::Entity;
use bevy_math::Mat4;
use bevy_mesh::skinning::SkinnedMeshInverseBindposes;
use bevy_mesh::{Mesh, PrimitiveTopology, VertexAttributeValues};
use bevy_mod_skinned_aabb::component::{
    create_skinned_aabb_component, find_skin, try_create_component_for_skin,
    try_create_skinned_aabb_component,
};
use bevy_mod_skinned_aabb::store::find_source;
use bevy_mod_skinned_aabb::{
    create_skinned_aabbs, AssetKey, InverseBindposesAssets, MeshAssets, Skin, SkinError,
    SkinnedAabb, SkinnedAabbAsset, SkinnedAabbAssets, SkinnedAabbSourceAssets, SkinnedEntity,
};
use bevy_reflect::TypePath;

fn mesh(joint: u16) -> Mesh {
    Mesh::new(
        PrimitiveTopology::TriangleList,
        RenderAssetUsages::default(),
    )
    .with_inserted_attribute(Mesh::ATTRIBUTE_POSITION, vec![[1.0f32, 2.0, 3.0]])
    .with_inserted_attribute(
        Mesh::ATTRIBUTE_JOINT_INDEX,
        VertexAttributeValues::Uint16x4(vec![[joint, 0, 0, 0]]),
    )
    .with_inserted_attribute(Mesh::ATTRIBUTE_JOINT_WEIGHT, vec![[1.0f32, 0.0, 0.0, 0.0]])
}

fn poses(n: usize) -> SkinnedMeshInverseBindposes {
    SkinnedMeshInverseBindposes::from(vec![Mat4::IDENTITY; n])
}

fn named<A: bevy_asset::Asset>(n: u128) -> UntypedHandle {
    Handle::<A>::from(Uuid::from_u128(n)).untyped()
}

/// Collections of meshes and inverse bind poses with names.
#[derive(Default)]
struct Loaded {
    meshes: Assets<Mesh>,
    poses: Assets<SkinnedMeshInverseBindposes>,
}

impl Loaded {
    fn with_mesh(mut self, name: u128, mesh: Mesh) -> Self {
        self.meshes.insert(Uuid::from_u128(name), mesh).unwrap();
        self
    }

    fn with_poses(mut self, name: u128, poses: SkinnedMeshInverseBindposes) -> Self {
        self.poses.insert(Uuid::from_u128(name), poses).unwrap();
        self
    }

    fn try_create(
        &self,
        assets: &mut SkinnedAabbAssets,
        mesh: u128,
        poses: u128,
    ) -> Result<Option<SkinnedAabb>, SkinError> {
        try_create_skinned_aabb_component(
            assets,
            &MeshAssets {
                inner: &self.meshes,
            },
            &named::<Mesh>(mesh),
            &InverseBindposesAssets { inner: &self.poses },
            &named::<SkinnedMeshInverseBindposes>(poses),
        )
    }

    fn create(
        &self,
        assets: &mut SkinnedAabbAssets,
        mesh: u128,
        poses: u128,
    ) -> Option<SkinnedAabb> {
        create_skinned_aabb_component(
            assets,
            &MeshAssets {
                inner: &self.meshes,
            },
            &named::<Mesh>(mesh),
            &InverseBindposesAssets { inner: &self.poses },
            &named::<SkinnedMeshInverseBindposes>(poses),
        )
    }

    fn create_all(
        &self,
        assets: &mut SkinnedAabbAssets,
        entities: Vec<(Entity, u128, u128)>,
    ) -> Result<Vec<(Entity, SkinnedAabb)>, SkinError> {
        let entities = entities
            .iter()
            .map(|(entity, mesh, poses)| SkinnedEntity {
                entity: *entity,
                mesh: named::<Mesh>(*mesh),
                inverse_bindposes: named::<SkinnedMeshInverseBindposes>(*poses),
            })
            .collect();
        create_skinned_aabbs(
            assets,
            &MeshAssets {
                inner: &self.meshes,
            },
            &InverseBindposesAssets { inner: &self.poses },
            &entities,
        )
    }
}

fn id(component: &SkinnedAabb) -> AssetId<SkinnedAabbAsset> {
    component.asset.clone().typed::<SkinnedAabbAsset>().id()
}

fn source(mesh: u128, poses: u128) -> SkinnedAabbSourceAssets {
    SkinnedAabbSourceAssets {
        mesh: AssetKey::Uuid { uuid: mesh },
        inverse_bindposes: AssetKey::Uuid { uuid: poses },
    }
}

#[test]
fn path_of_the_asset_type() {
    assert_eq!(
        SkinnedAabbAsset::type_path(),
        "bevy_mod_skinned_aabb::SkinnedAabbAsset"
    );
    assert_eq!(SkinnedAabbAsset::short_type_path(), "SkinnedAabbAsset");
    assert_eq!(SkinnedAabbAsset::type_ident(), Some("SkinnedAabbAsset"));
    assert_eq!(
        SkinnedAabbAsset::crate_name(),
        Some("bevy_mod_skinned_aabb")
    );
}

#[test]
fn first_entry_with_a_source() {
    let a = AssetKey::Index { bits: 1 };
    let b = AssetKey::Index { bits: 2 };
    let c = AssetKey::Uuid { uuid: 3 };
    let entries = vec![
        (a, source(1, 1)),
        (b, source(1, 2)),
        (c, source(1, 2)),
        (a, source(2, 1)),
    ];
    assert_eq!(find_source(&entries, source(1, 2)), Some(b));
    assert_eq!(find_source(&entries, source(1, 1)), Some(a));
    assert_eq!(find_source(&entries, source(2, 2)), None);
    assert_eq!(find_source(&vec![], source(1, 1)), None);
}

#[test]
fn skins_are_found_by_their_handles() {
    let loaded = Loaded::default()
        .with_mesh(1, mesh(0))
        .with_poses(2, poses(1));
    let find = |mesh: u128, poses: u128| {
        find_skin(
            &MeshAssets {
                inner: &loaded.meshes,
            },
            &named::<Mesh>(mesh),
            &InverseBindposesAssets {
                inner: &loaded.poses,
            },
            &named::<SkinnedMeshInverseBindposes>(poses),
        )
    };
    let skin = find(1, 2);
    assert_eq!(skin.mesh.unwrap().count_vertices(), 1);
    assert_eq!(skin.inverse_bindposes.unwrap().len(), 1);
    assert_eq!(skin.source, source(1, 2));
    assert!(find(2, 2).mesh.is_none());
    assert!(find(1, 1).inverse_bindposes.is_none());
    assert_eq!(find(3, 4).source, source(3, 4));
}

#[test]
fn nothing_while_not_loaded() {
    let mut assets = SkinnedAabbAssets::new();
    let loaded = Loaded::default()
        .with_mesh(1, mesh(0))
        .with_poses(2, poses(1));
    for (mesh, poses) in [(3, 4), (1, 4), (3, 2)] {
        assert!(loaded.create(&mut assets, mesh, poses).is_none());
        assert_eq!(assets.inner.len(), 0);
    }
    let skin = Skin {
        mesh: None,
        inverse_bindposes: None,
        source: source(1, 2),
    };
    assert!(matches!(
        try_create_component_for_skin(&mut assets, &skin),
        Ok(None)
    ));
}

#[test]
fn a_new_asset() {
    let mut assets = SkinnedAabbAssets::new();
    let loaded = Loaded::default()
        .with_mesh(1, mesh(2))
        .with_poses(2, poses(3));
    let component = loaded.create(&mut assets, 1, 2).unwrap();
    assert_eq!(assets.inner.len(), 1);
    let asset = assets.inner.get(id(&component)).unwrap();
    assert_eq!(asset.source, source(1, 2));
    assert_eq!(asset.aabb_index_to_joint_index, vec![2]);
    assert!(matches!(component.asset, UntypedHandle::Strong(_)));
}

#[test]
fn sources_come_from_the_handles() {
    let mut loaded = Loaded::default().with_poses(2, poses(1));
    let first = loaded.meshes.add(mesh(0));
    let second = loaded.meshes.add(mesh(0));
    let mut assets = SkinnedAabbAssets::new();
    let component = create_skinned_aabb_component(
        &mut assets,
        &MeshAssets {
            inner: &loaded.meshes,
        },
        &second.clone().untyped(),
        &InverseBindposesAssets {
            inner: &loaded.poses,
        },
        &named::<SkinnedMeshInverseBindposes>(2),
    )
    .unwrap();
    let bits = |handle: &Handle<Mesh>| match handle.id() {
        AssetId::Index { index, .. } => index.to_bits(),
        AssetId::Uuid { .. } => panic!("no index"),
    };
    assert_ne!(bits(&first), bits(&second));
    assert_eq!(
        assets.inner.get(id(&component)).unwrap().source,
        SkinnedAabbSourceAssets {
            mesh: AssetKey::Index {
                bits: bits(&second)
            },
            inverse_bindposes: AssetKey::Uuid { uuid: 2 },
        }
    );
}

#[test]
fn same_sources_share_an_asset() {
    let mut assets = SkinnedAabbAssets::new();
    let loaded = Loaded::default()
        .with_mesh(1, mesh(0))
        .with_poses(2, poses(1))
        .with_poses(3, poses(1));
    let first = loaded.create(&mut assets, 1, 2).unwrap();
    let other = loaded.create(&mut assets, 1, 3).unwrap();
    let again = loaded.create(&mut assets, 1, 2).unwrap();
    assert_eq!(assets.inner.len(), 2);
    assert_eq!(id(&first), id(&again));
    assert_ne!(id(&first), id(&other));
    assert_eq!(assets.inner.get(id(&first)).unwrap().source, source(1, 2));
    assert_eq!(assets.inner.get(id(&other)).unwrap().source, source(1, 3));
}

#[test]
fn sharing_needs_no_valid_skin() {
    let mut assets = SkinnedAabbAssets::new();
    let mut loaded = Loaded::default()
        .with_mesh(1, mesh(0))
        .with_poses(2, poses(1));
    let first = loaded.create(&mut assets, 1, 2).unwrap();
    let mut moved_away = mesh(0);
    moved_away.take_gpu_data().unwrap();
    loaded = loaded.with_mesh(1, moved_away);
    let again = loaded.create(&mut assets, 1, 2).unwrap();
    assert_eq!(id(&first), id(&again));
}

#[test]
fn named_assets_are_not_shared() {
    let mut assets = SkinnedAabbAssets::new();
    let name = Uuid::from_u128(77);
    let stored = SkinnedAabbAsset {
        source: source(1, 2),
        aabbs: vec![],
        aabb_index_to_joint_index: vec![],
    };
    assets.inner.insert(name, stored).unwrap();
    let loaded = Loaded::default()
        .with_mesh(1, mesh(0))
        .with_poses(2, poses(1));
    let component = loaded.create(&mut assets, 1, 2).unwrap();
    assert_eq!(assets.inner.len(), 2);
    assert_ne!(id(&component), AssetId::Uuid { uuid: name });
    let again = loaded.create(&mut assets, 1, 2).unwrap();
    assert_eq!(assets.inner.len(), 2);
    assert_eq!(id(&component), id(&again));
}

#[test]
fn the_first_match_is_shared() {
    let mut assets = SkinnedAabbAssets::new();
    let stored = |poses: u128| SkinnedAabbAsset {
        source: source(1, poses),
        aabbs: vec![],
        aabb_index_to_joint_index: vec![],
    };
    let _zero = assets.inner.add(stored(9));
    let one = assets.inner.add(stored(2));
    let _two = assets.inner.add(stored(2));
    let loaded = Loaded::default()
        .with_mesh(1, mesh(0))
        .with_poses(2, poses(1));
    let component = loaded.create(&mut assets, 1, 2).unwrap();
    assert_eq!(id(&component), one.id());
    assert_eq!(assets.inner.len(), 3);
}

#[test]
fn errors_leave_the_assets_alone() {
    let mut assets = SkinnedAabbAssets::new();
    let mut moved_away = mesh(0);
    moved_away.take_gpu_data().unwrap();
    let loaded = Loaded::default()
        .with_mesh(1, mesh(4))
        .with_mesh(3, moved_away)
        .with_poses(2, poses(2));
    assert_eq!(
        loaded.try_create(&mut assets, 1, 2).err(),
        Some(SkinError::JointOutOfRange {
            joint_index: 4,
            num_joints: 2
        })
    );
    assert_eq!(assets.inner.len(), 0);
    assert_eq!(
        loaded.try_create(&mut assets, 3, 2).err(),
        Some(SkinError::MeshNotReadable)
    );
    assert_eq!(assets.inner.len(), 0);
    assert!(matches!(loaded.try_create(&mut assets, 5, 2), Ok(None)));
}

#[test]
fn components_for_many_entities() {
    let mut assets = SkinnedAabbAssets::new();
    let loaded = Loaded::default()
        .with_mesh(1, mesh(0))
        .with_mesh(3, mesh(0))
        .with_poses(2, poses(1));
    let entity = |n: u32| Entity::from_raw_u32(n).unwrap();
    let created = loaded
        .create_all(
            &mut assets,
            vec![
                (entity(10), 1, 2),
                (entity(11), 9, 2),
                (entity(12), 3, 2),
                (entity(13), 1, 2),
            ],
        )
        .unwrap();
    assert_eq!(created.len(), 3);
    assert_eq!(created[0].0, entity(10));
    assert_eq!(created[1].0, entity(12));
    assert_eq!(created[2].0, entity(13));
    assert_eq!(id(&created[0].1), id(&created[2].1));
    assert_ne!(id(&created[0].1), id(&created[1].1));
    assert_eq!(assets.inner.len(), 2);
    assert_eq!(
        assets.inner.get(id(&created[0].1)).unwrap().source,
        source(1, 2)
    );
    assert_eq!(
        assets.inner.get(id(&created[1].1)).unwrap().source,
        source(3, 2)
    );
}

#[test]
fn components_describe_their_skins() {
    let mut assets = SkinnedAabbAssets::new();
    let loaded = Loaded::default()
        .with_mesh(1, mesh(0))
        .with_mesh(3, mesh(1))
        .with_poses(2, poses(2));
    let entity = Entity::PLACEHOLDER;
    let created = loaded
        .create_all(
            &mut assets,
            vec![(entity, 1, 2), (entity, 3, 2), (entity, 1, 2)],
        )
        .unwrap();
    let joints: Vec<Vec<u16>> = created
        .iter()
        .map(|(_, c)| {
            let asset = assets.inner.get(id(c)).unwrap();
            asset.aabb_index_to_joint_index.clone()
        })
        .collect();
    assert_eq!(joints, vec![vec![0], vec![1], vec![0]]);
}

#[test]
fn creation_stops_at_the_first_error() {
    let mut assets = SkinnedAabbAssets::new();
    let loaded = Loaded::default()
        .with_mesh(1, mesh(0))
        .with_mesh(2, mesh(1))
        .with_mesh(3, mesh(0))
        .with_poses(2, poses(1));
    let entity = Entity::PLACEHOLDER;
    assert_eq!(
        loaded
            .create_all(
                &mut assets,
                vec![(entity, 1, 2), (entity, 2, 2), (entity, 3, 2)],
            )
            .err(),
        Some(SkinError::JointOutOfRange {
            joint_index: 1,
            num_joints: 1
        })
    );
    assert_eq!(assets.inner.len(), 1);
    assert!(loaded.create_all(&mut assets, vec![]).unwrap().is_empty());
}

#[test]
fn components_come_with_their_sources() {
    let mut assets = SkinnedAabbAssets::new();
    let entity = |n: u32| Entity::from_raw_u32(n).unwrap();
    let entities = vec![(entity(1), 1, 2), (entity(2), 3, 2), (entity(3), 1, 2)];
    let loaded = Loaded::default().with_mesh(3, mesh(0));
    let none = loaded.create_all(&mut assets, entities.clone()).unwrap();
    assert!(none.is_empty());
    let loaded = loaded.with_poses(2, poses(1));
    let some = loaded.create_all(&mut assets, entities.clone()).unwrap();
    assert_eq!(some.len(), 1);
    assert_eq!(some[0].0, entity(2));
    let loaded = loaded.with_mesh(1, mesh(0));
    let all = loaded.create_all(&mut assets, entities).unwrap();
    assert_eq!(all.len(), 3);
    assert_eq!(id(&all[1].1), id(&some[0].1));
    assert_eq!(assets.inner.len(), 2);
}

#[test]
fn further_run_adds_nothing() {
    let mut assets = SkinnedAabbAssets::new();
    let loaded = Loaded::default()
        .with_mesh(1, mesh(0))
        .with_mesh(3, mesh(0))
        .with_poses(2, poses(1))
        .with_poses(4, poses(1));
    let entity = Entity::PLACEHOLDER;
    let entities = vec![
        (entity, 1, 2),
        (entity, 1, 4),
        (entity, 3, 2),
        (entity, 1, 2),
    ];
    let first = loaded.create_all(&mut assets, entities.clone()).unwrap();
    assert_eq!(assets.inner.len(), 3);
    let again = loaded.create_all(&mut assets, entities.clone()).unwrap();
    assert_eq!(assets.inner.len(), 3);
    for i in 0..4 {
        assert_eq!(id(&first[i].1), id(&again[i].1));
        for j in 0..4 {
            let same = entities[i].1 == entities[j].1 && entities[i].2 == entities[j].2;
            assert_eq!(id(&first[i].1) == id(&first[j].1), same);
        }
    }
}
