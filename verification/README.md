# bevy_mod_skinned_aabb

Axis-aligned bounding boxes for skinned meshes in Bevy, with the logic verified by Verus.

A skinned mesh is moved by joints. Each joint that moves vertices gets a box around their positions
in the space of the joint. The box of an entity is the box around the transformed boxes of its
joints.

- `src/` is the verified library.
  - `float`, `math`: single precision numbers, and the vectors, matrices and boxes of Bevy, seen
    through their bit patterns.
  - `aabb`: growing boxes and carrying them through affine transforms.
  - `influence`: which joints move which vertices.
  - `asset`: the boxes of the joints of a skin.
  - `lookup`, `store`: the collections of assets and the transforms of joints.
  - `component`: giving entities their boxes; entities with the same mesh and inverse bind poses
    share them.
  - `entity`: the box of an entity.
  - `coverage`, `invariance`, `sharing`: that the box of an entity contains its vertices, what the
    boxes of a skin do not depend on, and which entities share them.
- `app/` is the plugin: the systems that fetch from the world and write back to it.
- `tests/` runs the library with Bevy's own types.

Coordinates are compared as numbers. Where a NaN turns up on an axis, nothing is promised on that
axis, since the SIMD instruction sets treat it differently.
