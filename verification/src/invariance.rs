//! What the boxes of a skin do not depend on: the order of its vertices and of their influences,
//! the size of its weights, and joints that move nothing.
use bevy_mesh::Mesh;
use vstd::prelude::*;

use crate::asset::{
    is_skinned, joint_points, jointspace_point, law_bounds_are_tight, law_skinned_joints,
    lemma_influence_has_point, lemma_point_has_influence, skin_is_valid, skinned_joints, SkinnedAabbAsset,
};
use crate::float::{is_number, key, le, Key};
use crate::influence::{
    has_weight, influence_at, influences_from, lemma_influence_has_slot,
    lemma_joint_indices_are_small, mesh_influences, mesh_is_readable, mesh_skin, InfluenceModel,
    SkinModel, MAX_INFLUENCES,
};
use crate::math::vec3_keys;

verus! {

/// Whether coordinate `i` of each point is a number.
pub open spec fn are_numbers(points: Seq<Seq<Key>>, i: int) -> bool {
    forall|p: int| 0 <= p < points.len() ==> is_number(#[trigger] points[p][i])
}

/// Whether two assets have boxes for the same joints, in the same order, and with the same corners;
/// on each axis on which no position that the joint moves has a NaN.
pub open spec fn have_same_boxes(
    asset: SkinnedAabbAsset,
    other: SkinnedAabbAsset,
    influences: Seq<InfluenceModel>,
    poses: Seq<Seq<u32>>,
) -> bool {
    &&& asset.aabb_index_to_joint_index@ == other.aabb_index_to_joint_index@
    &&& asset.aabbs@.len() == other.aabbs@.len()
    &&& forall|a: int, i: int|
        #![trigger vec3_keys(asset.aabbs@[a].min)[i]]
        #![trigger vec3_keys(asset.aabbs@[a].max)[i]]
        0 <= a < asset.aabbs@.len() && 0 <= i < 3 && are_numbers(
            joint_points(influences, poses, asset.aabb_index_to_joint_index@[a] as int),
            i,
        ) ==> {
            &&& vec3_keys(asset.aabbs@[a].min)[i] == vec3_keys(other.aabbs@[a].min)[i]
            &&& vec3_keys(asset.aabbs@[a].max)[i] == vec3_keys(other.aabbs@[a].max)[i]
        }
}

/// Whether `p` lists each of the numbers below `n` once.
pub open spec fn is_permutation(p: Seq<int>, n: int) -> bool {
    &&& p.len() == n
    &&& forall|i: int| 0 <= i < n ==> 0 <= #[trigger] p[i] < n
    &&& forall|j: int| 0 <= j < n ==> #[trigger] p.contains(j)
}

/// Whether `other` is `skin` with its vertices in another order, and the influences of each vertex
/// in another order: vertex `v` of `other` is vertex `vertices[v]` of `skin`, and its influence `k`
/// is influence `slots[v][k]` of that vertex.
pub open spec fn is_reordering(
    skin: SkinModel,
    other: SkinModel,
    vertices: Seq<int>,
    slots: Seq<Seq<int>>,
) -> bool {
    &&& other.positions.len() == skin.positions.len()
    &&& is_permutation(vertices, skin.positions.len() as int)
    &&& forall|v: int|
        #![trigger vertices[v]]
        #![trigger slots[v]]
        0 <= v < skin.positions.len() ==> {
            &&& is_permutation(slots[v], MAX_INFLUENCES as int)
            &&& other.positions[v] == skin.positions[vertices[v]]
            &&& forall|k: int|
                #![trigger slots[v][k]]
                0 <= k < MAX_INFLUENCES ==> {
                    &&& other.joint_indices[v][k] == skin.joint_indices[vertices[v]][slots[v][k]]
                    &&& other.joint_weights[v][k] == skin.joint_weights[vertices[v]][slots[v][k]]
                }
        }
}

/// Whether `other` is `skin` but for the size of its weights.
pub open spec fn is_reweighting(skin: SkinModel, other: SkinModel) -> bool {
    &&& other.positions == skin.positions
    &&& other.joint_indices == skin.joint_indices
    &&& forall|v: int, k: int|
        0 <= v < skin.positions.len() && 0 <= k < MAX_INFLUENCES ==> (key(
            #[trigger] other.joint_weights[v][k],
        ) == Some(0int) <==> key(skin.joint_weights[v][k]) == Some(0int))
}

/// Whether `longer` starts with `poses`.
pub open spec fn extends(poses: Seq<Seq<u32>>, longer: Seq<Seq<u32>>) -> bool {
    &&& poses.len() <= longer.len()
    &&& forall|j: int| 0 <= j < poses.len() ==> #[trigger] longer[j] == poses[j]
}

/// Influences that are the same, in any order, move the same points.
proof fn lemma_same_points(
    influences: Seq<InfluenceModel>,
    poses: Seq<Seq<u32>>,
    others: Seq<InfluenceModel>,
    longer: Seq<Seq<u32>>,
    j: int,
    p: int,
) -> (q: int)
    requires
        forall|x: InfluenceModel| influences.contains(x) ==> #[trigger] others.contains(x),
        0 <= j < poses.len(),
        j < longer.len(),
        poses[j] == longer[j],
        0 <= p < joint_points(influences, poses, j).len(),
    ensures
        0 <= q < joint_points(others, longer, j).len(),
        joint_points(others, longer, j)[q] == joint_points(influences, poses, j)[p],
{
    let k = lemma_point_has_influence(influences, poses, j, p);
    assert(influences.contains(influences[k]));
    assert(others.contains(influences[k]));
    let l = choose|l: int| 0 <= l < others.len() && others[l] == influences[k];
    lemma_influence_has_point(others, longer, l);
    let points = joint_points(others, longer, j);
    let point = jointspace_point(others[l], longer);
    choose|q: int| 0 <= q < points.len() && points[q] == point
}

/// The lists of the skinned joints agree where the same joints are skinned.
proof fn lemma_same_skinned_joints(
    influences: Seq<InfluenceModel>,
    others: Seq<InfluenceModel>,
    n: int,
    m: int,
)
    requires
        0 <= n <= m,
        forall|j: int| #[trigger] is_skinned(influences, j) <==> is_skinned(others, j),
        forall|j: int| #[trigger] is_skinned(influences, j) ==> j < n,
    ensures
        skinned_joints(influences, n) == skinned_joints(others, m),
    decreases m,
{
    if m > n {
        assert(!is_skinned(influences, m - 1));
        lemma_same_skinned_joints(influences, others, n, m - 1);
    } else {
        lemma_same_skinned_joints_below(influences, others, n);
    }
}

/// The lists of the skinned joints below `n` agree where the same joints are skinned.
proof fn lemma_same_skinned_joints_below(
    influences: Seq<InfluenceModel>,
    others: Seq<InfluenceModel>,
    n: int,
)
    requires
        forall|j: int| #[trigger] is_skinned(influences, j) <==> is_skinned(others, j),
    ensures
        skinned_joints(influences, n) == skinned_joints(others, n),
    decreases n,
{
    if n > 0 {
        lemma_same_skinned_joints_below(influences, others, n - 1);
        assert(is_skinned(influences, n - 1) <==> is_skinned(others, n - 1));
    }
}

/// Where one list of influences holds those of the other, its joints are among those of the other.
proof fn lemma_same_is_skinned(
    influences: Seq<InfluenceModel>,
    others: Seq<InfluenceModel>,
    j: int,
)
    requires
        forall|x: InfluenceModel| influences.contains(x) ==> #[trigger] others.contains(x),
        is_skinned(influences, j),
    ensures
        is_skinned(others, j),
{
    let k = choose|k: int| 0 <= k < influences.len() && (#[trigger] influences[k]).joint_index == j;
    assert(influences.contains(influences[k]));
    assert(others.contains(influences[k]));
    let l = choose|l: int| 0 <= l < others.len() && others[l] == influences[k];
    assert(others[l].joint_index == j);
}

/// The boxes depend only on which influences there are, and on the bind poses of their joints.
pub proof fn law_boxes_depend_on_influences_only(
    asset: SkinnedAabbAsset,
    influences: Seq<InfluenceModel>,
    poses: Seq<Seq<u32>>,
    other: SkinnedAabbAsset,
    others: Seq<InfluenceModel>,
    longer: Seq<Seq<u32>>,
)
    requires
        asset.describes(influences, poses),
        other.describes(others, longer),
        forall|x: InfluenceModel| #[trigger] influences.contains(x) <==> others.contains(x),
        extends(poses, longer),
        forall|k: int|
            0 <= k < influences.len() ==> 0 <= (#[trigger] influences[k]).joint_index < poses.len(),
    ensures
        have_same_boxes(asset, other, influences, poses),
{
    assert forall|x: InfluenceModel| influences.contains(x) implies #[trigger] others.contains(x) by {}
    assert forall|j: int| #[trigger] is_skinned(influences, j) <==> is_skinned(others, j) by {
        if is_skinned(influences, j) {
            lemma_same_is_skinned(influences, others, j);
        }
        if is_skinned(others, j) {
            lemma_same_is_skinned(others, influences, j);
        }
    }
    lemma_same_skinned_joints(influences, others, poses.len() as int, longer.len() as int);
    let joints = skinned_joints(influences, poses.len() as int);
    assert forall|a: int| 0 <= a < joints.len() implies asset.aabb_index_to_joint_index@[a]
        == other.aabb_index_to_joint_index@[a] by {
        assert(asset.aabb_index_to_joint_index@[a] == joints[a]);
        assert(other.aabb_index_to_joint_index@[a] == joints[a]);
    }
    assert(asset.aabb_index_to_joint_index@ =~= other.aabb_index_to_joint_index@);
    assert forall|a: int, i: int|
        0 <= a < joints.len() && 0 <= i < 3 && are_numbers(
            joint_points(influences, poses, joints[a]),
            i,
        ) implies {
        &&& #[trigger] vec3_keys(asset.aabbs@[a].min)[i] == vec3_keys(other.aabbs@[a].min)[i]
        &&& vec3_keys(asset.aabbs@[a].max)[i] == vec3_keys(other.aabbs@[a].max)[i]
    } by {
        let j = joints[a];
        law_skinned_joints(influences, poses.len() as int);
        assert(joints.contains(j));
        assert(asset.aabb_index_to_joint_index@[a] == j);
        assert(other.aabb_index_to_joint_index@[a] == j);
        let points = joint_points(influences, poses, j);
        let other_points = joint_points(others, longer, j);
        let k = choose|k: int|
            0 <= k < influences.len() && (#[trigger] influences[k]).joint_index == j;
        lemma_influence_has_point(influences, poses, k);
        lemma_same_points(influences, poses, others, longer, j, 0);
        assert forall|p: int| 0 <= p < other_points.len() implies is_number(
            #[trigger] other_points[p][i],
        ) by {
            let r = lemma_same_points(others, longer, influences, poses, j, p);
            assert(is_number(points[r][i]));
        }
        let min = vec3_keys(asset.aabbs@[a].min);
        let max = vec3_keys(asset.aabbs@[a].max);
        let other_min = vec3_keys(other.aabbs@[a].min);
        let other_max = vec3_keys(other.aabbs@[a].max);
        law_bounds_are_tight(points, min, max, i);
        law_bounds_are_tight(other_points, other_min, other_max, i);
        let p = choose|p: int| 0 <= p < points.len() && #[trigger] points[p][i] == min[i];
        let r = lemma_same_points(influences, poses, others, longer, j, p);
        assert(le(other_min[i], other_points[r][i]));
        let p = choose|p: int| 0 <= p < points.len() && #[trigger] points[p][i] == max[i];
        let r = lemma_same_points(influences, poses, others, longer, j, p);
        assert(le(other_points[r][i], other_max[i]));
        let p = choose|p: int|
            0 <= p < other_points.len() && #[trigger] other_points[p][i] == other_min[i];
        let r = lemma_same_points(others, longer, influences, poses, j, p);
        assert(le(min[i], points[r][i]));
        let p = choose|p: int|
            0 <= p < other_points.len() && #[trigger] other_points[p][i] == other_max[i];
        let r = lemma_same_points(others, longer, influences, poses, j, p);
        assert(le(points[r][i], max[i]));
    }
}

/// Putting the vertices of a mesh in another order, or the influences of its vertices, leaves the
/// boxes of its joints as they are: they are in the order of the joints, not in that of their first
/// use.
pub proof fn law_order_does_not_matter(
    mesh: Mesh,
    other_mesh: Mesh,
    vertices: Seq<int>,
    slots: Seq<Seq<int>>,
    poses: Seq<Seq<u32>>,
    asset: SkinnedAabbAsset,
    other: SkinnedAabbAsset,
)
    requires
        is_reordering(mesh_skin(mesh), mesh_skin(other_mesh), vertices, slots),
        skin_is_valid(mesh, poses),
        asset.describes(mesh_influences(mesh), poses),
        other.describes(mesh_influences(other_mesh), poses),
    ensures
        have_same_boxes(asset, other, mesh_influences(mesh), poses),
{
    let skin = mesh_skin(mesh);
    let other_skin = mesh_skin(other_mesh);
    let n = MAX_INFLUENCES as int;
    assert forall|x: InfluenceModel| #[trigger] mesh_influences(mesh).contains(x)
        <==> mesh_influences(other_mesh).contains(x) by {
        lemma_influence_has_slot(skin, x);
        lemma_influence_has_slot(other_skin, x);
        if mesh_influences(mesh).contains(x) {
            let s = choose|s: int|
                0 <= s < MAX_INFLUENCES * skin.positions.len() && #[trigger] has_weight(skin, s)
                    && influence_at(skin, s) == x;
            assert(vertices.contains(s / n));
            let v = choose|v: int| 0 <= v < vertices.len() && vertices[v] == s / n;
            assert(slots[v].contains(s % n));
            let k = choose|k: int| 0 <= k < slots[v].len() && slots[v][k] == s % n;
            let t = n * v + k;
            assert(t / n == v && t % n == k);
            assert(has_weight(other_skin, t) && influence_at(other_skin, t) == x);
        }
        if mesh_influences(other_mesh).contains(x) {
            let t = choose|t: int|
                0 <= t < MAX_INFLUENCES * other_skin.positions.len() && #[trigger] has_weight(
                    other_skin,
                    t,
                ) && influence_at(other_skin, t) == x;
            let v = vertices[t / n];
            let k = slots[t / n][t % n];
            let s = n * v + k;
            assert(s / n == v && s % n == k);
            assert(has_weight(skin, s) && influence_at(skin, s) == x);
        }
    }
    lemma_joint_indices_are_small(skin, 0);
    law_boxes_depend_on_influences_only(
        asset,
        mesh_influences(mesh),
        poses,
        other,
        mesh_influences(other_mesh),
        poses,
    );
}

/// Neither the size of a weight that is not zero nor joints that move nothing matter: with other
/// weights, and with more bind poses at the end, the mesh is as good as before and gets the same
/// boxes.
pub proof fn law_weights_and_unused_joints_do_not_matter(
    mesh: Mesh,
    other_mesh: Mesh,
    poses: Seq<Seq<u32>>,
    longer: Seq<Seq<u32>>,
    asset: SkinnedAabbAsset,
    other: SkinnedAabbAsset,
)
    requires
        is_reweighting(mesh_skin(mesh), mesh_skin(other_mesh)),
        extends(poses, longer),
        skin_is_valid(mesh, poses),
        mesh_is_readable(other_mesh),
        asset.describes(mesh_influences(mesh), poses),
        other.describes(mesh_influences(other_mesh), longer),
    ensures
        skin_is_valid(other_mesh, longer),
        mesh_influences(other_mesh) == mesh_influences(mesh),
        have_same_boxes(asset, other, mesh_influences(mesh), poses),
{
    lemma_reweighting(mesh_skin(mesh), mesh_skin(other_mesh), 0);
    lemma_joint_indices_are_small(mesh_skin(mesh), 0);
    law_boxes_depend_on_influences_only(
        asset,
        mesh_influences(mesh),
        poses,
        other,
        mesh_influences(other_mesh),
        longer,
    );
}

/// With other weights, zero in the same places, the same influences are walked over.
proof fn lemma_reweighting(skin: SkinModel, other: SkinModel, slot: int)
    requires
        is_reweighting(skin, other),
        0 <= slot,
    ensures
        influences_from(other, slot) == influences_from(skin, slot),
    decreases MAX_INFLUENCES * skin.positions.len() - slot,
{
    if slot < MAX_INFLUENCES * skin.positions.len() {
        lemma_reweighting(skin, other, slot + 1);
        let v = slot / (MAX_INFLUENCES as int);
        let k = slot % (MAX_INFLUENCES as int);
        assert(key(other.joint_weights[v][k]) == Some(0int) <==> key(skin.joint_weights[v][k])
            == Some(0int));
    }
}

} // verus!
