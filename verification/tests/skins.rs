use bevy_asset::RenderAssetUsages;
use bevy_math::{Mat4, Vec3};
use bevy_mesh::skinning::SkinnedMeshInverseBindposes;
use bevy_mesh::{Mesh, MeshVertexAttribute, PrimitiveTopology, VertexAttributeValues, VertexFormat};
use bevy_mod_skinned_aabb::asset::{
    check_skin, create_skinned_aabb_asset, pack_joint_aabbs, try_create_skinned_aabb_asset,
};
use bevy_mod_skinned_aabb::aabb::merge;
use bevy_mod_skinned_aabb::influence::{AttributeValues, InfluenceIterator};
use bevy_mod_skinned_aabb::{AssetKey, SkinError, SkinnedAabbSourceAssets, MAX_INFLUENCES};

fn empty_mesh() -> Mesh {
    Mesh::new(
        PrimitiveTopology::TriangleList,
        RenderAssetUsages::default(),
    )
}

fn skinned_mesh(
    positions: Vec<[f32; 3]>,
    joint_indices: Vec<[u16; 4]>,
    joint_weights: Vec<[f32; 4]>,
) -> Mesh {
    empty_mesh()
        .with_inserted_attribute(Mesh::ATTRIBUTE_POSITION, positions)
        .with_inserted_attribute(
            Mesh::ATTRIBUTE_JOINT_INDEX,
            VertexAttributeValues::Uint16x4(joint_indices),
        )
        .with_inserted_attribute(Mesh::ATTRIBUTE_JOINT_WEIGHT, joint_weights)
}

fn collect(mut influences: InfluenceIterator) -> Vec<(Vec3, usize)> {
    let mut r = Vec::new();
    while let Some(influence) = influences.next() {
        r.push((influence.position, influence.joint_index));
    }
    assert!(influences.next().is_none());
    r
}

const MESH: AssetKey = AssetKey::Index { bits: 5 };
const POSES: AssetKey = AssetKey::Uuid { uuid: 7 };

#[test]
fn influences_with_weight() {
    assert_eq!(MAX_INFLUENCES, 4);
    let mesh = skinned_mesh(
        vec![[1.0, 2.0, 3.0], [4.0, 5.0, 6.0], [7.0, 8.0, 9.0]],
        vec![[0, 1, 2, 3], [4, 5, 6, 7], [8, 9, 10, 11]],
        vec![
            [0.5, 0.0, 0.5, 0.0],
            [0.0, 0.0, 0.0, 0.0],
            [0.0, -1.0, f32::NAN, 1.0],
        ],
    );
    assert_eq!(
        collect(InfluenceIterator::new(&mesh)),
        vec![
            (Vec3::new(1.0, 2.0, 3.0), 0),
            (Vec3::new(1.0, 2.0, 3.0), 2),
            (Vec3::new(7.0, 8.0, 9.0), 9),
            (Vec3::new(7.0, 8.0, 9.0), 10),
            (Vec3::new(7.0, 8.0, 9.0), 11),
        ]
    );
}

#[test]
fn influence_with_negative_weight() {
    let mesh = skinned_mesh(
        vec![[1.0, 2.0, 3.0]],
        vec![[7, 0, 0, 0]],
        vec![[-0.5, 0.0, -0.0, 0.0]],
    );
    let mut influences = InfluenceIterator::new(&mesh);
    let influence = influences.next().unwrap();
    assert_eq!(influence.position, Vec3::new(1.0, 2.0, 3.0));
    assert_eq!(influence.joint_index, 7);
    for _ in 0..3 {
        assert!(influences.next().is_none());
    }
}

#[test]
fn influences_of_a_mesh_without_skin() {
    assert!(collect(InfluenceIterator::new(&empty_mesh())).is_empty());
    assert!(collect(InfluenceIterator::default()).is_empty());

    let full = skinned_mesh(vec![[0.0; 3]], vec![[0; 4]], vec![[1.0; 4]]);
    assert_eq!(collect(InfluenceIterator::new(&full)).len(), 4);
    for attribute in [
        Mesh::ATTRIBUTE_POSITION,
        Mesh::ATTRIBUTE_JOINT_INDEX,
        Mesh::ATTRIBUTE_JOINT_WEIGHT,
    ] {
        let mut mesh = full.clone();
        mesh.remove_attribute(attribute);
        assert!(collect(InfluenceIterator::new(&mesh)).is_empty());
    }
}

#[test]
fn influences_of_attributes_with_different_lengths() {
    let mesh = skinned_mesh(vec![[0.0; 3]; 2], vec![[0; 4]; 3], vec![[1.0; 4]; 2]);
    assert!(collect(InfluenceIterator::new(&mesh)).is_empty());
    let mesh = skinned_mesh(vec![[0.0; 3]; 2], vec![[0; 4]; 2], vec![[1.0; 4]; 1]);
    assert!(collect(InfluenceIterator::new(&mesh)).is_empty());
}

#[test]
fn influences_of_attributes_with_unexpected_format() {
    let index = Mesh::ATTRIBUTE_JOINT_INDEX;
    let mesh = skinned_mesh(vec![[0.0; 3]], vec![[0; 4]], vec![[1.0; 4]]);
    let mesh = mesh.with_inserted_attribute(
        MeshVertexAttribute::new("JointIndex", 7, VertexFormat::Float32x4),
        vec![[0.0f32; 4]],
    );
    assert!(mesh.attribute(index).is_some());
    assert!(collect(InfluenceIterator::new(&mesh)).is_empty());
    let mesh = mesh.with_inserted_attribute(
        MeshVertexAttribute::new("JointIndex", 7, VertexFormat::Uint8x4),
        VertexAttributeValues::Uint8x4(vec![[0; 4]]),
    );
    assert!(collect(InfluenceIterator::new(&mesh)).is_empty());
}

#[test]
fn influences_from_attributes() {
    let weights = [0.0f32, 0.25, 0.0, 0.75].map(|w| w.to_bits());
    let influences = InfluenceIterator::from_attributes(
        Some(AttributeValues::Float32x3(vec![Vec3::X])),
        Some(AttributeValues::Uint16x4(vec![[9, 8, 7, 6]])),
        Some(AttributeValues::Float32x4(vec![weights])),
    );
    assert_eq!(collect(influences), vec![(Vec3::X, 8), (Vec3::X, 6)]);
    let influences = InfluenceIterator::from_attributes(
        Some(AttributeValues::Float32x3(vec![Vec3::X])),
        None,
        Some(AttributeValues::Float32x4(vec![weights])),
    );
    assert!(collect(influences).is_empty());
    let influences = InfluenceIterator::from_attributes(
        Some(AttributeValues::Other),
        Some(AttributeValues::Uint16x4(vec![[9, 8, 7, 6]])),
        Some(AttributeValues::Float32x4(vec![weights])),
    );
    assert!(collect(influences).is_empty());
}

#[test]
fn boxes_of_skinned_joints_only() {
    let mesh = skinned_mesh(
        vec![[1.0, 2.0, 3.0], [-4.0, 5.0, 6.0], [7.0, -8.0, 9.0]],
        vec![[3, 1, 0, 0], [3, 0, 0, 0], [1, 3, 2, 0]],
        vec![
            [0.5, 0.5, 0.0, 0.0],
            [1.0, 0.0, 0.0, 0.0],
            [1.0, 0.0, 0.0, 0.0],
        ],
    );
    let poses = SkinnedMeshInverseBindposes::from(vec![
        Mat4::IDENTITY,
        Mat4::from_scale(Vec3::new(2.0, 2.0, -2.0)),
        Mat4::IDENTITY,
        Mat4::from_translation(Vec3::new(10.0, 20.0, 30.0)),
    ]);
    assert_eq!(check_skin(&mesh, &poses), Ok(()));
    let asset = create_skinned_aabb_asset(&mesh, MESH, &poses, POSES);
    assert_eq!(
        asset.source,
        SkinnedAabbSourceAssets {
            mesh: MESH,
            inverse_bindposes: POSES
        }
    );
    assert_eq!(asset.num_aabbs(), 2);
    assert_eq!(asset.aabb_index_to_joint_index, vec![1, 3]);
    assert_eq!(asset.aabb(0).min, Vec3::new(2.0, -16.0, -18.0));
    assert_eq!(asset.aabb(0).max, Vec3::new(14.0, 4.0, -6.0));
    assert_eq!(asset.aabb(1).min, Vec3::new(6.0, 22.0, 33.0));
    assert_eq!(asset.aabb(1).max, Vec3::new(11.0, 25.0, 36.0));
}

#[test]
fn boxes_contain_the_positions_of_their_joint() {
    let mut positions = Vec::new();
    let mut indices = Vec::new();
    let mut weights = Vec::new();
    for v in 0..40u16 {
        let x = v as f32;
        positions.push([x * 0.37 - 5.0, 3.0 - x * 0.11, (x - 20.0) * (x - 20.0) * 0.05]);
        indices.push([v % 5, (v / 3) % 7, 6, 0]);
        weights.push([0.5, 0.25, if v % 2 == 0 { 0.25 } else { 0.0 }, 0.0]);
    }
    let poses: Vec<Mat4> = (0..8)
        .map(|j| {
            Mat4::from_scale(Vec3::new(1.0 + j as f32, -0.7, 0.3))
                * Mat4::from_translation(Vec3::splat(j as f32))
        })
        .collect();
    let mesh = skinned_mesh(positions, indices, weights);
    let asset = create_skinned_aabb_asset(
        &mesh,
        MESH,
        &SkinnedMeshInverseBindposes::from(poses.clone()),
        POSES,
    );
    assert_eq!(asset.aabb_index_to_joint_index, vec![0, 1, 2, 3, 4, 5, 6]);
    for (position, joint) in collect(InfluenceIterator::new(&mesh)) {
        let a = asset
            .aabb_index_to_joint_index
            .iter()
            .position(|j| *j as usize == joint)
            .unwrap();
        let p = poses[joint].transform_point3(position);
        assert!(asset.aabb(a).min.cmple(p).all() && p.cmple(asset.aabb(a).max).all());
    }
}

#[test]
fn no_boxes_without_influences() {
    let poses = SkinnedMeshInverseBindposes::from(vec![Mat4::IDENTITY; 3]);
    let asset = create_skinned_aabb_asset(&empty_mesh(), MESH, &poses, POSES);
    assert_eq!(asset.num_aabbs(), 0);
    assert!(asset.aabb_index_to_joint_index.is_empty());
}

#[test]
fn packing_skips_joints_without_box() {
    let aabb = merge(None, Vec3::new(1.0, 2.0, 3.0).into());
    let other = merge(Some(aabb), Vec3::new(0.0, 4.0, 3.0).into());
    let (aabbs, joints) = pack_joint_aabbs(&vec![None, Some(aabb), None, None, Some(other)]);
    assert_eq!(joints, vec![1, 4]);
    assert_eq!(aabbs.len(), 2);
    assert_eq!(aabbs[0].max, Vec3::new(1.0, 2.0, 3.0));
    assert_eq!(aabbs[1].min, Vec3::new(0.0, 2.0, 3.0));
    assert_eq!(aabbs[1].max, Vec3::new(1.0, 4.0, 3.0));
}

#[test]
fn joint_out_of_range() {
    let poses = SkinnedMeshInverseBindposes::from(vec![Mat4::IDENTITY; 3]);
    let mesh = skinned_mesh(
        vec![[0.0; 3]; 2],
        vec![[2, 9, 0, 0], [1, 3, 4, 0]],
        vec![[1.0, 0.0, 0.0, 0.0], [0.5, 0.25, 0.25, 0.0]],
    );
    let error = SkinError::JointOutOfRange {
        joint_index: 3,
        num_joints: 3,
    };
    assert_eq!(check_skin(&mesh, &poses), Err(error));
    assert_eq!(
        try_create_skinned_aabb_asset(&mesh, MESH, &poses, POSES).err(),
        Some(error)
    );
    let more_poses = SkinnedMeshInverseBindposes::from(vec![Mat4::IDENTITY; 5]);
    let asset = try_create_skinned_aabb_asset(&mesh, MESH, &more_poses, POSES).unwrap();
    assert_eq!(asset.aabb_index_to_joint_index, vec![1, 2, 3, 4]);
}

#[test]
fn mesh_moved_away() {
    let poses = SkinnedMeshInverseBindposes::from(vec![Mat4::IDENTITY; 3]);
    let mut mesh = skinned_mesh(vec![[0.0; 3]], vec![[0; 4]], vec![[1.0; 4]]);
    assert!(InfluenceIterator::try_new(&mesh).is_ok());
    mesh.take_gpu_data().unwrap();
    assert_eq!(
        InfluenceIterator::try_new(&mesh).err(),
        Some(SkinError::MeshNotReadable)
    );
    assert_eq!(check_skin(&mesh, &poses), Err(SkinError::MeshNotReadable));
    assert_eq!(
        try_create_skinned_aabb_asset(&mesh, MESH, &poses, POSES).err(),
        Some(SkinError::MeshNotReadable)
    );
}

fn boxes(mesh: &Mesh, poses: Vec<Mat4>) -> (Vec<u16>, Vec<(Vec3, Vec3)>) {
    let asset =
        create_skinned_aabb_asset(mesh, MESH, &SkinnedMeshInverseBindposes::from(poses), POSES);
    (
        asset.aabb_index_to_joint_index.clone(),
        asset.aabbs.iter().map(|b| (b.min, b.max)).collect(),
    )
}

#[test]
fn order_does_not_matter() {
    let poses = vec![Mat4::IDENTITY, Mat4::from_scale(Vec3::new(2.0, -3.0, 0.5)), Mat4::IDENTITY];
    let mesh = skinned_mesh(
        vec![[1.0, 2.0, 3.0], [-4.0, 5.0, 6.0], [7.0, -8.0, 9.0]],
        vec![[2, 1, 0, 0], [1, 2, 0, 0], [2, 0, 0, 0]],
        vec![[0.5, 0.5, 0.0, 0.0], [0.2, 0.8, 0.0, 0.0], [1.0, 0.0, 0.0, 0.0]],
    );
    let reordered = skinned_mesh(
        vec![[7.0, -8.0, 9.0], [1.0, 2.0, 3.0], [-4.0, 5.0, 6.0]],
        vec![[0, 0, 2, 0], [0, 1, 0, 2], [2, 1, 0, 0]],
        vec![[0.0, 0.0, 1.0, 0.0], [0.0, 0.5, 0.0, 0.5], [0.8, 0.2, 0.0, 0.0]],
    );
    assert_eq!(boxes(&mesh, poses.clone()), boxes(&reordered, poses.clone()));
    assert_eq!(boxes(&mesh, poses).0, vec![1, 2]);
}

#[test]
fn weights_and_unused_joints_do_not_matter() {
    let positions = vec![[1.0, 2.0, 3.0], [-4.0, 5.0, 6.0]];
    let indices = vec![[1, 0, 0, 0], [0, 1, 0, 0]];
    let mesh = skinned_mesh(
        positions.clone(),
        indices.clone(),
        vec![[1.0, 0.0, 0.0, 0.0], [0.5, 0.5, 0.0, 0.0]],
    );
    let reweighted = skinned_mesh(
        positions,
        indices,
        vec![[0.1, 0.0, 0.0, 0.0], [0.9, 0.25, 0.0, 0.0]],
    );
    let poses = vec![Mat4::from_translation(Vec3::X), Mat4::IDENTITY];
    let mut longer = poses.clone();
    longer.push(Mat4::from_scale(Vec3::splat(7.0)));
    assert_eq!(boxes(&mesh, poses), boxes(&reweighted, longer));
}
