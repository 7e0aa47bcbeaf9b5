use bevy_asset::{Assets, Handle};
use bevy_camera::primitives::Aabb;
use bevy_ecs::entity::Entity;
use bevy_ecs::world::World;
use bevy_math::bounding::Aabb3d;
use bevy_math::{Affine3A, Quat, Vec3, Vec3A};
use bevy_mesh::skinning::SkinnedMesh;
use bevy_mod_skinned_aabb::entity::{aabb_from_corners, get_aabb_from_asset, merge_joint_aabbs};
use bevy_mod_skinned_aabb::{
    get_skinned_aabb, AssetKey, JointTransforms, PackedAabb3d, SkinnedAabb, SkinnedAabbAsset,
    SkinnedAabbAssetsRef, SkinnedAabbPlugin, SkinnedAabbPluginSettings, SkinnedAabbSourceAssets,
};
use bevy_transform::components::{GlobalTransform, Transform};

fn asset(boxes: Vec<([f32; 3], [f32; 3])>, joints: Vec<u16>) -> SkinnedAabbAsset {
    SkinnedAabbAsset {
        source: SkinnedAabbSourceAssets {
            mesh: AssetKey::Index { bits: 0 },
            inverse_bindposes: AssetKey::Index { bits: 0 },
        },
        aabbs: boxes
            .iter()
            .map(|(min, max)| PackedAabb3d {
                min: Vec3::from_array(*min),
                max: Vec3::from_array(*max),
            })
            .collect(),
        aabb_index_to_joint_index: joints,
    }
}

fn at(x: f32, y: f32, z: f32) -> GlobalTransform {
    GlobalTransform::from_translation(Vec3::new(x, y, z))
}

/// A world with an entity for each joint; those without a transform have no component.
fn spawn(transforms: Vec<Option<GlobalTransform>>) -> (World, SkinnedMesh) {
    let mut world = World::new();
    let joints: Vec<Entity> = transforms
        .iter()
        .map(|transform| match transform {
            Some(transform) => world.spawn(*transform).id(),
            None => world.spawn_empty().id(),
        })
        .collect();
    let skinned_mesh = SkinnedMesh {
        inverse_bindposes: Handle::default(),
        joints,
    };
    (world, skinned_mesh)
}

fn world_from_joint(
    asset: &SkinnedAabbAsset,
    aabb_index: usize,
    joints: Vec<Option<GlobalTransform>>,
) -> Option<Affine3A> {
    let (mut world, skinned_mesh) = spawn(joints);
    let mut state = world.query::<&'static GlobalTransform>();
    let query = state.query(&world);
    asset.world_from_joint(
        aabb_index,
        &skinned_mesh,
        &JointTransforms { inner: &query },
    )
}

fn entity_aabb(
    asset: &SkinnedAabbAsset,
    joints: Vec<Option<GlobalTransform>>,
    world_from_entity: &GlobalTransform,
) -> Option<Aabb> {
    let (mut world, skinned_mesh) = spawn(joints);
    let mut state = world.query::<&'static GlobalTransform>();
    let query = state.query(&world);
    get_aabb_from_asset(
        asset,
        &JointTransforms { inner: &query },
        &skinned_mesh,
        world_from_entity,
    )
}

#[test]
fn settings_default_to_parallel() {
    assert!(SkinnedAabbPluginSettings::default().parallel);
    let _plugin: SkinnedAabbPlugin = SkinnedAabbPlugin::default();
}

#[test]
fn joint_lookup() {
    let asset = asset(vec![([0.0; 3], [1.0; 3]); 3], vec![2, 0, 7]);
    let joints = vec![Some(at(1.0, 2.0, 3.0)), None, Some(at(4.0, 5.0, 6.0))];
    assert_eq!(
        world_from_joint(&asset, 0, joints.clone()),
        Some(at(4.0, 5.0, 6.0).affine())
    );
    assert_eq!(
        world_from_joint(&asset, 1, joints.clone()),
        Some(at(1.0, 2.0, 3.0).affine())
    );
    // The joint index is out of range.
    assert_eq!(world_from_joint(&asset, 2, joints.clone()), None);
    // The box index is out of range.
    assert_eq!(world_from_joint(&asset, 3, joints), None);
    // The joint has no transform.
    assert_eq!(
        world_from_joint(&asset, 1, vec![None, Some(at(0.0, 0.0, 0.0))]),
        None
    );
}

#[test]
fn asset_lookup() {
    let mut assets = Assets::<SkinnedAabbAsset>::default();
    let _other = assets.add(asset(vec![], vec![]));
    let handle = assets.add(asset(vec![([0.0; 3], [2.0; 3])], vec![0]));
    let (mut world, skinned_mesh) = spawn(vec![Some(at(5.0, 6.0, 7.0))]);
    let mut state = world.query::<&'static GlobalTransform>();
    let query = state.query(&world);
    let joints = JointTransforms { inner: &query };
    let component = SkinnedAabb {
        asset: handle.untyped(),
    };
    let found = get_skinned_aabb(
        &component,
        &joints,
        &SkinnedAabbAssetsRef { inner: &assets },
        &skinned_mesh,
        &at(0.0, 0.0, 0.0),
    )
    .unwrap();
    assert_eq!(found.center, Vec3A::new(6.0, 7.0, 8.0));
    assert_eq!(found.half_extents, Vec3A::new(1.0, 1.0, 1.0));
    // The asset is not in the collection.
    let empty = Assets::<SkinnedAabbAsset>::default();
    assert!(
        get_skinned_aabb(
            &component,
            &joints,
            &SkinnedAabbAssetsRef { inner: &empty },
            &skinned_mesh,
            &at(0.0, 0.0, 0.0),
        )
        .is_none()
    );
}

#[test]
fn no_box_without_joint_boxes() {
    let asset = asset(vec![], vec![]);
    let joints = vec![Some(at(0.0, 0.0, 0.0))];
    assert!(entity_aabb(&asset, joints, &at(0.0, 0.0, 0.0)).is_none());
}

#[test]
fn no_box_without_joints() {
    let asset = asset(vec![([0.0; 3], [1.0; 3]); 2], vec![0, 1]);
    assert!(entity_aabb(&asset, vec![None, None], &at(0.0, 0.0, 0.0)).is_none());
    assert!(entity_aabb(&asset, vec![], &at(0.0, 0.0, 0.0)).is_none());
}

#[test]
fn box_of_one_joint() {
    let asset = asset(vec![([-1.0, -2.0, -3.0], [1.0, 4.0, 5.0])], vec![0]);
    let joints = vec![Some(at(10.0, 0.0, 0.0))];
    let aabb = entity_aabb(&asset, joints, &at(2.0, 1.0, 0.0)).unwrap();
    assert_eq!(aabb.center, Vec3A::new(8.0, 0.0, 1.0));
    assert_eq!(aabb.half_extents, Vec3A::new(1.0, 3.0, 4.0));
}

#[test]
fn box_of_several_joints() {
    let asset = asset(
        vec![
            ([-1.0, -1.0, -1.0], [1.0, 1.0, 1.0]),
            ([0.0, 0.0, 0.0], [2.0, 2.0, 2.0]),
            ([-100.0, 0.0, 0.0], [100.0, 0.0, 0.0]),
        ],
        vec![0, 2, 1],
    );
    // The joint of the last box is missing.
    let joints = vec![Some(at(0.0, 0.0, 0.0)), None, Some(at(4.0, 6.0, -8.0))];
    let aabb = entity_aabb(&asset, joints, &at(0.0, 0.0, 0.0)).unwrap();
    assert_eq!(aabb.min(), Vec3A::new(-1.0, -1.0, -8.0));
    assert_eq!(aabb.max(), Vec3A::new(6.0, 8.0, 1.0));
    assert_eq!(aabb.center, Vec3A::new(2.5, 3.5, -3.5));
    assert_eq!(aabb.half_extents, Vec3A::new(3.5, 4.5, 4.5));
}

#[test]
fn box_is_relative_to_the_entity() {
    let asset = asset(vec![([0.0, 0.0, 0.0], [2.0, 4.0, 6.0])], vec![0]);
    let entity = GlobalTransform::from(
        Transform::from_xyz(8.0, 0.0, 0.0).with_scale(Vec3::new(2.0, 4.0, 0.5)),
    );
    let aabb = entity_aabb(&asset, vec![Some(at(0.0, 0.0, 0.0))], &entity).unwrap();
    assert_eq!(aabb.min(), Vec3A::new(-4.0, 0.0, 0.0));
    assert_eq!(aabb.max(), Vec3A::new(-3.0, 1.0, 12.0));
}

#[test]
fn box_follows_the_entity() {
    // Moving the joints along with the entity leaves the box where it is, up to rounding.
    let asset = asset(vec![([-1.0, 0.0, 2.0], [2.0, 4.0, 6.0])], vec![0]);
    let joint = Transform::from_xyz(1.0, 2.0, 3.0);
    let rest = entity_aabb(
        &asset,
        vec![Some(GlobalTransform::from(joint))],
        &at(0.0, 0.0, 0.0),
    )
    .unwrap();
    let entity = Transform::from_xyz(5.0, -6.0, 7.0).with_rotation(Quat::from_rotation_y(0.7));
    let moved = entity_aabb(
        &asset,
        vec![Some(GlobalTransform::from(entity * joint))],
        &GlobalTransform::from(entity),
    )
    .unwrap();
    assert!(rest.center.abs_diff_eq(moved.center, 1e-4));
    assert!(rest.half_extents.abs_diff_eq(moved.half_extents, 1e-4));
}

#[test]
fn merged_boxes_contain_the_boxes_of_the_joints() {
    let asset = asset(
        vec![
            ([-1.0, -1.0, -1.0], [1.0, 1.0, 1.0]),
            ([3.0, -5.0, 0.0], [4.0, 8.0, 2.0]),
            ([-9.0, -9.0, -9.0], [9.0, 9.0, 9.0]),
        ],
        vec![0, 0, 1],
    );
    let (mut world, skinned_mesh) = spawn(vec![Some(at(0.0, 0.0, 0.0)), None]);
    let mut state = world.query::<&'static GlobalTransform>();
    let query = state.query(&world);
    let merged = merge_joint_aabbs(
        &asset,
        &JointTransforms { inner: &query },
        &skinned_mesh,
        Affine3A::from_translation(Vec3::new(10.0, 0.0, 0.0)),
    );
    assert_eq!(merged.min, Vec3A::new(9.0, -5.0, -1.0));
    assert_eq!(merged.max, Vec3A::new(14.0, 8.0, 2.0));
}

#[test]
fn merging_nothing() {
    let asset = asset(vec![([0.0; 3], [1.0; 3])], vec![0]);
    let (mut world, skinned_mesh) = spawn(vec![None]);
    let mut state = world.query::<&'static GlobalTransform>();
    let query = state.query(&world);
    let merged = merge_joint_aabbs(
        &asset,
        &JointTransforms { inner: &query },
        &skinned_mesh,
        Affine3A::IDENTITY,
    );
    assert_eq!(merged.min, Vec3A::MAX);
    assert_eq!(merged.max, Vec3A::MIN);
}

#[test]
fn corners_in_the_wrong_order() {
    let corners = Aabb3d {
        min: Vec3A::MAX,
        max: Vec3A::MIN,
    };
    assert!(aabb_from_corners(corners).is_none());
    let corners = Aabb3d {
        min: Vec3A::new(-2.0, 0.0, 1.0),
        max: Vec3A::new(6.0, 1.0, 4.0),
    };
    let aabb = aabb_from_corners(corners).unwrap();
    assert_eq!(aabb.center, Vec3A::new(2.0, 0.5, 2.5));
    assert_eq!(aabb.half_extents, Vec3A::new(4.0, 0.5, 1.5));
    // Only the first axis is looked at.
    let corners = Aabb3d {
        min: Vec3A::new(0.0, 5.0, 0.0),
        max: Vec3A::new(0.0, -5.0, 0.0),
    };
    assert_eq!(
        aabb_from_corners(corners).unwrap().half_extents,
        Vec3A::new(0.0, -5.0, 0.0)
    );
}

#[test]
fn moved_positions_are_covered() {
    // Two joints that move one vertex each, both with a turn and a scale.
    let points = [Vec3::new(1.5, -2.25, 0.7), Vec3::new(-3.1, 4.2, 9.9)];
    let asset = asset(
        points
            .iter()
            .map(|p| (p.to_array(), p.to_array()))
            .collect(),
        vec![0, 1],
    );
    let joint = |x: f32| {
        GlobalTransform::from(
            Transform::from_xyz(x, 2.0, -x)
                .with_rotation(Quat::from_rotation_z(x))
                .with_scale(Vec3::new(0.5, 2.0, x)),
        )
    };
    let joints = [joint(3.0), joint(-1.3)];
    let (mut world, skinned_mesh) = spawn(vec![Some(joints[0]), Some(joints[1])]);
    let mut state = world.query::<&'static GlobalTransform>();
    let query = state.query(&world);
    let entity_from_world = at(1.0, 2.0, 3.0).affine().inverse();
    let merged = merge_joint_aabbs(
        &asset,
        &JointTransforms { inner: &query },
        &skinned_mesh,
        entity_from_world,
    );
    for j in 0..2 {
        let m = entity_from_world * joints[j].affine();
        let q = m.translation
            + m.matrix3.x_axis * Vec3A::splat(points[j].x)
            + m.matrix3.y_axis * Vec3A::splat(points[j].y)
            + m.matrix3.z_axis * Vec3A::splat(points[j].z);
        assert!(merged.min.cmple(q).all() && q.cmple(merged.max).all());
    }
}

#[test]
fn missing_joints_do_not_matter() {
    let joints = vec![Some(at(1.0, 0.0, 0.0)), None, Some(at(0.0, 2.0, 0.0)), None];
    let all = asset(
        vec![
            ([0.0; 3], [1.0; 3]),
            ([-50.0; 3], [50.0; 3]),
            ([-1.0; 3], [2.0; 3]),
        ],
        vec![0, 1, 2],
    );
    let found = asset(vec![([0.0; 3], [1.0; 3]), ([-1.0; 3], [2.0; 3])], vec![0, 2]);
    let with = entity_aabb(&all, joints.clone(), &at(0.0, 0.0, 0.0)).unwrap();
    let without = entity_aabb(&found, joints, &at(0.0, 0.0, 0.0)).unwrap();
    assert_eq!(with.center, without.center);
    assert_eq!(with.half_extents, without.half_extents);
}

#[test]
fn joints_without_boxes_do_not_matter() {
    let asset = asset(vec![([0.0; 3], [1.0; 3])], vec![1]);
    let joint = Some(at(1.0, 2.0, 3.0));
    let one = entity_aabb(&asset, vec![None, joint], &at(0.0, 0.0, 0.0)).unwrap();
    let joints = vec![Some(at(90.0, 90.0, 90.0)), joint];
    let other = entity_aabb(&asset, joints, &at(0.0, 0.0, 0.0)).unwrap();
    assert_eq!(one.center, other.center);
    assert_eq!(one.half_extents, other.half_extents);
}

#[test]
fn moving_together_keeps_the_box() {
    let asset = asset(
        vec![([-1.0, 0.0, 2.0], [2.0, 4.0, 6.0]), ([0.0; 3], [1.0; 3])],
        vec![0, 1],
    );
    let rest = entity_aabb(
        &asset,
        vec![Some(at(1.0, 2.0, 3.0)), Some(at(-4.0, 0.0, 0.5))],
        &at(8.0, 0.0, 0.0),
    )
    .unwrap();
    let moved = entity_aabb(
        &asset,
        vec![Some(at(17.0, -30.0, 67.0)), Some(at(12.0, -32.0, 64.5))],
        &at(24.0, -32.0, 64.0),
    )
    .unwrap();
    assert_eq!(rest.center, moved.center);
    assert_eq!(rest.half_extents, moved.half_extents);
}

#[test]
fn vertices_are_covered() {
    // A vertex that two joints move, drawn half way between its two images.
    let asset = asset(
        vec![([1.0, 2.0, 3.0], [1.0, 2.0, 3.0]); 2],
        vec![0, 1],
    );
    let joints = [at(0.0, 8.0, -2.0), at(6.0, -4.0, 0.0)];
    let aabb = entity_aabb(
        &asset,
        vec![Some(joints[0]), Some(joints[1])],
        &at(1.0, 1.0, 1.0),
    )
    .unwrap();
    let images = joints.map(|j| j.affine().translation + Vec3A::new(0.0, 1.0, 2.0));
    let q = 0.5 * images[0] + 0.5 * images[1];
    for p in [images[0], images[1], q] {
        assert!((p - aabb.center).abs().cmple(aabb.half_extents).all());
    }
    assert_eq!(aabb.center, q);
    assert_eq!(aabb.half_extents, Vec3A::new(3.0, 6.0, 1.0));
}

#[test]
fn half_extents_are_not_negative() {
    // The box of the joint is turned over.
    let asset = asset(vec![([2.0, 1.0, -3.0], [2.0, 4.0, 0.0])], vec![0]);
    let joint = GlobalTransform::from(
        Transform::from_xyz(1.0, 0.0, 0.0).with_scale(Vec3::new(-2.0, -1.0, -0.5)),
    );
    let aabb = entity_aabb(&asset, vec![Some(joint)], &at(0.0, 0.0, 0.0)).unwrap();
    assert_eq!(aabb.center, Vec3A::new(-3.0, -2.5, 0.75));
    assert_eq!(aabb.half_extents, Vec3A::new(0.0, 1.5, 0.75));
}
