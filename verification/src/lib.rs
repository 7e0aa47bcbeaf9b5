//! Axis-aligned bounding boxes of skinned meshes.
//!
//! A skinned mesh is moved by joints. Each joint that moves vertices gets, once, a box around their
//! positions in the space of the joint ([`asset`]). The box of an entity is then, whenever its
//! joints have moved, the box around the transformed boxes of its joints ([`entity`]). Entities
//! with the same mesh and the same inverse bind poses share the boxes of their joints
//! ([`component`], [`sharing`]).
pub mod aabb;
pub mod asset;
pub mod component;
pub mod coverage;
pub mod entity;
pub mod float;
pub mod influence;
pub mod invariance;
pub mod lookup;
pub mod math;
pub mod prelude;
pub mod settings;
pub mod sharing;
pub mod store;

pub use aabb::{aabb_transformed_by, PackedAabb3d};
pub use asset::{AssetKey, JointIndex, SkinnedAabbAsset, SkinnedAabbSourceAssets};
pub use component::{create_skinned_aabbs, Skin, SkinnedAabb, SkinnedEntity};
pub use entity::get_skinned_aabb;
pub use influence::{SkinError, MAX_INFLUENCES};
pub use lookup::{InverseBindposesAssets, JointTransforms, MeshAssets, SkinnedAabbAssetsRef};
pub use settings::{SkinnedAabbPlugin, SkinnedAabbPluginSettings};
pub use store::SkinnedAabbAssets;
