//! Which joints move which vertices of a mesh.
use bevy_math::Vec3;
use bevy_mesh::{Mesh, MeshAccessError, VertexAttributeValues};
use vstd::prelude::*;

use crate::float::{is_nonzero, key};
use crate::math::vec3_lanes;

verus! {

/// The most joints that can move one vertex.
pub const MAX_INFLUENCES: usize = 4;

/// `bevy_mesh::Mesh`, known by [`mesh_is_readable`] and [`mesh_attribute`].
#[verifier::external_type_specification]
#[verifier::external_body]
pub struct ExMesh(Mesh);

/// `bevy_mesh::MeshAccessError`, the reason why a mesh could not be read.
#[verifier::external_type_specification]
#[verifier::external_body]
pub struct ExMeshAccessError(MeshAccessError);

/// The vertex attributes that skinning reads.
#[derive(Copy, Clone, Debug, PartialEq, Eq, Structural)]
pub enum SkinAttribute {
    Position,
    JointIndex,
    JointWeight,
}

/// The values of a vertex attribute, one per vertex. Weights are kept as bit patterns.
pub enum AttributeValues {
    Float32x3(Vec<Vec3>),
    Uint16x4(Vec<[u16; 4]>),
    Float32x4(Vec<[u32; 4]>),
    /// Values of any other format.
    Other,
}

/// What [`AttributeValues`] holds.
pub ghost enum AttributeModel {
    Float32x3(Seq<Seq<u32>>),
    Uint16x4(Seq<Seq<u16>>),
    Float32x4(Seq<Seq<u32>>),
    Other,
}

impl View for AttributeValues {
    type V = AttributeModel;

    open spec fn view(&self) -> AttributeModel {
        match self {
            AttributeValues::Float32x3(v) => AttributeModel::Float32x3(
                v@.map_values(|p: Vec3| vec3_lanes(p)),
            ),
            AttributeValues::Uint16x4(v) => AttributeModel::Uint16x4(
                v@.map_values(|a: [u16; 4]| a@),
            ),
            AttributeValues::Float32x4(v) => AttributeModel::Float32x4(
                v@.map_values(|a: [u32; 4]| a@),
            ),
            AttributeValues::Other => AttributeModel::Other,
        }
    }
}

/// Whether the vertices of the mesh are at hand, not moved away for rendering.
pub uninterp spec fn mesh_is_readable(mesh: Mesh) -> bool;

/// What a readable mesh holds for a vertex attribute; `None` where it lacks the attribute.
pub uninterp spec fn mesh_attribute(mesh: Mesh, which: SkinAttribute) -> Option<AttributeModel>;

/// `Mesh::try_attribute_option`: the values of one attribute, if the mesh has it. It fails exactly
/// when the vertex data as a whole is not at hand, whichever attribute is asked for.
#[verifier::external_body]
fn read_attribute(mesh: &Mesh, which: SkinAttribute) -> (r: Result<
    Option<AttributeValues>,
    MeshAccessError,
>)
    ensures
        r is Ok <==> mesh_is_readable(*mesh),
        r matches Ok(values) ==> model_of(values) == mesh_attribute(*mesh, which),
{
    let id = match which {
        SkinAttribute::Position => Mesh::ATTRIBUTE_POSITION,
        SkinAttribute::JointIndex => Mesh::ATTRIBUTE_JOINT_INDEX,
        SkinAttribute::JointWeight => Mesh::ATTRIBUTE_JOINT_WEIGHT,
    };
    Ok(mesh.try_attribute_option(id)?.map(|values| match values {
        VertexAttributeValues::Float32x3(v) => {
            AttributeValues::Float32x3(v.iter().map(|p| Vec3::from_array(*p)).collect())
        },
        VertexAttributeValues::Uint16x4(v) => AttributeValues::Uint16x4(v.clone()),
        VertexAttributeValues::Float32x4(v) => {
            AttributeValues::Float32x4(v.iter().map(|w| w.map(|x| x.to_bits())).collect())
        },
        _ => AttributeValues::Other,
    }))
}

/// A skin: for each vertex its position, the joints that may move it and their weights.
pub ghost struct SkinModel {
    pub positions: Seq<Seq<u32>>,
    pub joint_indices: Seq<Seq<u16>>,
    pub joint_weights: Seq<Seq<u32>>,
}

/// A vertex position together with a joint that moves it.
pub ghost struct InfluenceModel {
    pub position: Seq<u32>,
    pub joint_index: int,
}

/// The skin of nothing.
pub open spec fn empty_skin() -> SkinModel {
    SkinModel { positions: seq![], joint_indices: seq![], joint_weights: seq![] }
}

/// The skin with these attributes. It is empty where one of the three is missing or has an
/// unexpected format, or where they are there for different numbers of vertices.
pub open spec fn skin_of(
    positions: Option<AttributeModel>,
    joint_indices: Option<AttributeModel>,
    joint_weights: Option<AttributeModel>,
) -> SkinModel {
    match (positions, joint_indices, joint_weights) {
        (
            Some(AttributeModel::Float32x3(positions)),
            Some(AttributeModel::Uint16x4(joint_indices)),
            Some(AttributeModel::Float32x4(joint_weights)),
        ) => if joint_indices.len() == positions.len() && joint_weights.len() == positions.len() {
            SkinModel { positions, joint_indices, joint_weights }
        } else {
            empty_skin()
        },
        _ => empty_skin(),
    }
}

/// The skin of a mesh.
pub open spec fn mesh_skin(mesh: Mesh) -> SkinModel {
    skin_of(
        mesh_attribute(mesh, SkinAttribute::Position),
        mesh_attribute(mesh, SkinAttribute::JointIndex),
        mesh_attribute(mesh, SkinAttribute::JointWeight),
    )
}

/// What an attribute holds, if it is there.
pub open spec fn model_of(values: Option<AttributeValues>) -> Option<AttributeModel> {
    match values {
        Some(values) => Some(values@),
        None => None,
    }
}

/// The influence at a slot. Slot `MAX_INFLUENCES * v + k` is that of influence `k` of vertex `v`.
pub open spec fn influence_at(skin: SkinModel, slot: int) -> InfluenceModel {
    InfluenceModel {
        position: skin.positions[slot / (MAX_INFLUENCES as int)],
        joint_index: skin.joint_indices[slot / (MAX_INFLUENCES as int)][slot % (
        MAX_INFLUENCES as int)] as int,
    }
}

/// Whether the weight at a slot is other than zero.
pub open spec fn has_weight(skin: SkinModel, slot: int) -> bool {
    key(skin.joint_weights[slot / (MAX_INFLUENCES as int)][slot % (MAX_INFLUENCES as int)]) != Some(
        0int,
    )
}

/// The influences with non-zero weight, vertex by vertex, from a slot on.
pub open spec fn influences_from(skin: SkinModel, slot: int) -> Seq<InfluenceModel>
    decreases MAX_INFLUENCES * skin.positions.len() - slot,
{
    if slot < 0 || slot >= MAX_INFLUENCES * skin.positions.len() {
        seq![]
    } else if has_weight(skin, slot) {
        seq![influence_at(skin, slot)] + influences_from(skin, slot + 1)
    } else {
        influences_from(skin, slot + 1)
    }
}

/// All influences with non-zero weight in a mesh.
pub open spec fn mesh_influences(mesh: Mesh) -> Seq<InfluenceModel> {
    influences_from(mesh_skin(mesh), 0)
}

/// Whether `slots` are, in ascending order, the slots from `from` on with non-zero weight.
pub open spec fn are_weighted_slots(skin: SkinModel, from: int, slots: Seq<int>) -> bool {
    &&& forall|a: int, b: int| 0 <= a < b < slots.len() ==> #[trigger] slots[a] < #[trigger] slots[b]
    &&& forall|slot: int| #[trigger]
        slots.contains(slot) <==> from <= slot < MAX_INFLUENCES * skin.positions.len()
            && has_weight(skin, slot)
}

/// Exactly the influences with non-zero weight are walked over, each once, vertex by vertex.
pub proof fn law_influences_are_the_weighted_slots(skin: SkinModel, from: int) -> (slots: Seq<int>)
    requires
        0 <= from,
    ensures
        are_weighted_slots(skin, from, slots),
        influences_from(skin, from) == slots.map_values(|slot: int| influence_at(skin, slot)),
    decreases MAX_INFLUENCES * skin.positions.len() - from,
{
    if from >= MAX_INFLUENCES * skin.positions.len() {
        let slots: Seq<int> = seq![];
        assert(influences_from(skin, from) =~= slots.map_values(
            |slot: int| influence_at(skin, slot),
        ));
        slots
    } else {
        let later = law_influences_are_the_weighted_slots(skin, from + 1);
        if has_weight(skin, from) {
            let slots = seq![from] + later;
            assert forall|slot: int| #[trigger] slots.contains(slot) <==> from <= slot
                < MAX_INFLUENCES * skin.positions.len() && has_weight(skin, slot) by {
                if slots.contains(slot) && slot != from {
                    let a = choose|a: int| 0 <= a < slots.len() && slots[a] == slot;
                    assert(later[a - 1] == slot);
                }
                if later.contains(slot) {
                    let a = choose|a: int| 0 <= a < later.len() && later[a] == slot;
                    assert(slots[a + 1] == slot);
                }
                assert(slots[0] == from);
                assert(later.contains(slot) <==> from + 1 <= slot < MAX_INFLUENCES
                    * skin.positions.len() && has_weight(skin, slot));
            }
            assert forall|a: int, b: int| 0 <= a < b < slots.len() implies #[trigger] slots[a]
                < #[trigger] slots[b] by {
                assert(slots[b] == later[b - 1]);
                assert(later.contains(later[b - 1]));
                if a > 0 {
                    assert(slots[a] == later[a - 1]);
                }
            }
            assert(influences_from(skin, from) =~= slots.map_values(
                |slot: int| influence_at(skin, slot),
            ));
            slots
        } else {
            assert forall|slot: int| #[trigger] later.contains(slot) <==> from <= slot
                < MAX_INFLUENCES * skin.positions.len() && has_weight(skin, slot) by {
                assert(later.contains(slot) <==> from + 1 <= slot < MAX_INFLUENCES
                    * skin.positions.len() && has_weight(skin, slot));
            }
            later
        }
    }
}

/// An influence is walked over exactly when it is that of a slot with non-zero weight.
pub proof fn lemma_influence_has_slot(skin: SkinModel, x: InfluenceModel)
    ensures
        influences_from(skin, 0).contains(x) <==> exists|s: int|
            0 <= s < MAX_INFLUENCES * skin.positions.len() && #[trigger] has_weight(skin, s)
                && influence_at(skin, s) == x,
{
    let slots = law_influences_are_the_weighted_slots(skin, 0);
    let all = influences_from(skin, 0);
    if all.contains(x) {
        let k = choose|k: int| 0 <= k < all.len() && all[k] == x;
        assert(slots.contains(slots[k]));
        assert(has_weight(skin, slots[k]) && influence_at(skin, slots[k]) == x);
    }
    if exists|s: int|
        0 <= s < MAX_INFLUENCES * skin.positions.len() && #[trigger] has_weight(skin, s)
            && influence_at(skin, s) == x {
        let s = choose|s: int|
            0 <= s < MAX_INFLUENCES * skin.positions.len() && #[trigger] has_weight(skin, s)
                && influence_at(skin, s) == x;
        assert(slots.contains(s));
        let k = choose|k: int| 0 <= k < slots.len() && slots[k] == s;
        assert(all[k] == x);
    }
}

/// What an attribute is known to hold are its values, one by one.
pub proof fn law_attributes_hold_their_values(
    positions: Vec<Vec3>,
    joint_indices: Vec<[u16; 4]>,
    joint_weights: Vec<[u32; 4]>,
    v: int,
)
    ensures
        model_of(None) is None,
        model_of(Some(AttributeValues::Other)) == Some(AttributeModel::Other),
        model_of(Some(AttributeValues::Float32x3(positions))) matches Some(
            AttributeModel::Float32x3(model),
        ) && model.len() == positions@.len() && (0 <= v < positions@.len() ==> model[v]
            == vec3_lanes(positions@[v])),
        model_of(Some(AttributeValues::Uint16x4(joint_indices))) matches Some(
            AttributeModel::Uint16x4(model),
        ) && model.len() == joint_indices@.len() && (0 <= v < joint_indices@.len() ==> model[v]
            == joint_indices@[v]@),
        model_of(Some(AttributeValues::Float32x4(joint_weights))) matches Some(
            AttributeModel::Float32x4(model),
        ) && model.len() == joint_weights@.len() && (0 <= v < joint_weights@.len() ==> model[v]
            == joint_weights@[v]@),
{
}

/// What an influence is known to hold are its position and its joint.
pub proof fn law_influences_hold_their_values(influence: Influence)
    ensures
        influence@.position == vec3_lanes(influence.position),
        influence@.joint_index == influence.joint_index,
{
}

/// Every influence of every vertex whose weight is not zero is walked over, whichever joint it
/// names, and no other: vertex by vertex, and in each vertex in the order of its four influences.
/// What is returned says, for each influence that is walked over, of which vertex it is and which of
/// the four.
pub proof fn law_every_weighted_influence_counts(
    mesh: Mesh,
    positions: Seq<Seq<u32>>,
    joint_indices: Seq<Seq<u16>>,
    joint_weights: Seq<Seq<u32>>,
) -> (at: Seq<(int, int)>)
    requires
        mesh_attribute(mesh, SkinAttribute::Position) == Some(AttributeModel::Float32x3(positions)),
        mesh_attribute(mesh, SkinAttribute::JointIndex) == Some(
            AttributeModel::Uint16x4(joint_indices),
        ),
        mesh_attribute(mesh, SkinAttribute::JointWeight) == Some(
            AttributeModel::Float32x4(joint_weights),
        ),
        joint_indices.len() == positions.len(),
        joint_weights.len() == positions.len(),
    ensures
        at.len() == mesh_influences(mesh).len(),
        forall|n: int|
            0 <= n < at.len() ==> {
                let (v, k) = #[trigger] at[n];
                &&& 0 <= v < positions.len()
                &&& 0 <= k < 4
                &&& key(joint_weights[v][k]) != Some(0int)
                &&& mesh_influences(mesh)[n].position == positions[v]
                &&& mesh_influences(mesh)[n].joint_index == joint_indices[v][k]
            },
        forall|n: int, m: int|
            0 <= n < m < at.len() ==> (#[trigger] at[n]).0 < (#[trigger] at[m]).0 || (at[n].0
                == at[m].0 && at[n].1 < at[m].1),
        forall|v: int, k: int|
            0 <= v < positions.len() && 0 <= k < 4 && key(#[trigger] joint_weights[v][k]) != Some(
                0int,
            ) ==> at.contains((v, k)),
{
    let skin = mesh_skin(mesh);
    let slots = law_influences_are_the_weighted_slots(skin, 0);
    let at = slots.map_values(|s: int| (s / 4, s % 4));
    assert forall|n: int| 0 <= n < at.len() implies {
        let (v, k) = #[trigger] at[n];
        &&& 0 <= v < positions.len()
        &&& 0 <= k < 4
        &&& key(joint_weights[v][k]) != Some(0int)
        &&& mesh_influences(mesh)[n].position == positions[v]
        &&& mesh_influences(mesh)[n].joint_index == joint_indices[v][k]
    } by {
        assert(slots.contains(slots[n]));
        assert(has_weight(skin, slots[n]));
    }
    assert forall|n: int, m: int| 0 <= n < m < at.len() implies (#[trigger] at[n]).0 < (
    #[trigger] at[m]).0 || (at[n].0 == at[m].0 && at[n].1 < at[m].1) by {
        assert(slots[n] < slots[m]);
    }
    assert forall|v: int, k: int|
        0 <= v < positions.len() && 0 <= k < 4 && key(#[trigger] joint_weights[v][k]) != Some(
            0int,
        ) implies at.contains((v, k)) by {
        let s = 4 * v + k;
        assert(s / 4 == v && s % 4 == k);
        assert(has_weight(skin, s));
        assert(slots.contains(s));
        let n = choose|n: int| 0 <= n < slots.len() && slots[n] == s;
        assert(at[n] == (v, k));
    }
    at
}

/// Without positions, joint indices and weights, each of its format and there for as many vertices,
/// nothing is walked over.
pub proof fn law_no_influences_without_a_skin(mesh: Mesh)
    ensures
        mesh_influences(mesh).len() > 0 ==> match (
            mesh_attribute(mesh, SkinAttribute::Position),
            mesh_attribute(mesh, SkinAttribute::JointIndex),
            mesh_attribute(mesh, SkinAttribute::JointWeight),
        ) {
            (
                Some(AttributeModel::Float32x3(positions)),
                Some(AttributeModel::Uint16x4(joint_indices)),
                Some(AttributeModel::Float32x4(joint_weights)),
            ) => joint_indices.len() == positions.len() && joint_weights.len() == positions.len(),
            _ => false,
        },
{
}

/// Joint indices of a mesh have 16 bits.
pub proof fn lemma_joint_indices_are_small(skin: SkinModel, slot: int)
    ensures
        forall|k: int|
            0 <= k < influences_from(skin, slot).len() ==> 0 <= (#[trigger] influences_from(
                skin,
                slot,
            )[k]).joint_index <= u16::MAX,
    decreases MAX_INFLUENCES * skin.positions.len() - slot,
{
    if 0 <= slot < MAX_INFLUENCES * skin.positions.len() {
        lemma_joint_indices_are_small(skin, slot + 1);
        let here = influences_from(skin, slot);
        let later = influences_from(skin, slot + 1);
        assert forall|k: int| 0 <= k < here.len() implies 0 <= (#[trigger] here[k]).joint_index
            <= u16::MAX by {
            if here.len() == later.len() {
                assert(here[k] == later[k]);
            } else if k > 0 {
                assert(here[k] == later[k - 1]);
            }
        }
    }
}

/// Why no bounding boxes can be made for a skin.
#[derive(Copy, Clone, Debug, PartialEq, Eq, Structural)]
pub enum SkinError {
    /// The vertices of the mesh are not at hand: they were moved away for rendering.
    MeshNotReadable,
    /// A vertex is moved by a joint that the skin does not have.
    JointOutOfRange { joint_index: usize, num_joints: usize },
}

/// A vertex position together with a joint that moves it.
pub struct Influence {
    pub position: Vec3,
    pub joint_index: usize,
}

impl View for Influence {
    type V = InfluenceModel;

    open spec fn view(&self) -> InfluenceModel {
        InfluenceModel {
            position: vec3_lanes(self.position),
            joint_index: self.joint_index as int,
        }
    }
}

/// Walks over all vertex influences with non-zero weight.
pub struct InfluenceIterator {
    vertex_index: usize,
    influence_index: usize,
    positions: Vec<Vec3>,
    joint_indices: Vec<[u16; 4]>,
    joint_weights: Vec<[u32; 4]>,
}

impl Default for InfluenceIterator {
    fn default() -> (r: Self)
        ensures
            r.well_formed(),
            r.skin() == empty_skin(),
            r.slot() == 0,
            r.remaining() == Seq::<InfluenceModel>::empty(),
    {
        let r = InfluenceIterator {
            vertex_index: 0,
            influence_index: 0,
            positions: Vec::new(),
            joint_indices: Vec::new(),
            joint_weights: Vec::new(),
        };
        assert(r.skin().positions =~= empty_skin().positions);
        assert(r.skin().joint_indices =~= empty_skin().joint_indices);
        assert(r.skin().joint_weights =~= empty_skin().joint_weights);
        r
    }
}

impl InfluenceIterator {
    /// The skin that it walks over.
    pub closed spec fn skin(self) -> SkinModel {
        SkinModel {
            positions: self.positions@.map_values(|p: Vec3| vec3_lanes(p)),
            joint_indices: self.joint_indices@.map_values(|a: [u16; 4]| a@),
            joint_weights: self.joint_weights@.map_values(|a: [u32; 4]| a@),
        }
    }

    /// The slot that comes next.
    pub closed spec fn slot(self) -> int {
        MAX_INFLUENCES * self.vertex_index + self.influence_index
    }

    /// The slot after the last one.
    pub open spec fn end(self) -> int {
        MAX_INFLUENCES * self.skin().positions.len()
    }

    /// Whether it has walked over all vertices.
    pub closed spec fn is_at_end(self) -> bool {
        self.vertex_index == self.positions@.len()
    }

    /// The influences that are still to come.
    pub open spec fn remaining(self) -> Seq<InfluenceModel> {
        influences_from(self.skin(), self.slot())
    }

    /// The three attributes are there for each vertex, and the position is within them.
    pub closed spec fn well_formed(self) -> bool {
        &&& self.joint_indices@.len() == self.positions@.len()
        &&& self.joint_weights@.len() == self.positions@.len()
        &&& self.influence_index <= MAX_INFLUENCES
        &&& self.vertex_index <= self.positions@.len()
        &&& self.vertex_index == self.positions@.len() ==> self.influence_index == 0
    }

    /// Starts at the first vertex of a mesh.
    pub fn new(mesh: &Mesh) -> (r: Self)
        requires
            mesh_is_readable(*mesh),
        ensures
            r.well_formed(),
            r.skin() == mesh_skin(*mesh),
            r.slot() == 0,
            r.remaining() == mesh_influences(*mesh),
    {
        match (
            read_attribute(mesh, SkinAttribute::Position),
            read_attribute(mesh, SkinAttribute::JointIndex),
            read_attribute(mesh, SkinAttribute::JointWeight),
        ) {
            (Ok(positions), Ok(joint_indices), Ok(joint_weights)) => {
                InfluenceIterator::from_attributes(positions, joint_indices, joint_weights)
            },
            _ => InfluenceIterator::default(),
        }
    }

    /// Starts at the first vertex of a skin with these attributes.
    pub fn from_attributes(
        positions: Option<AttributeValues>,
        joint_indices: Option<AttributeValues>,
        joint_weights: Option<AttributeValues>,
    ) -> (r: Self)
        ensures
            r.well_formed(),
            r.skin() == skin_of(
                model_of(positions),
                model_of(joint_indices),
                model_of(joint_weights),
            ),
            r.slot() == 0,
    {
        if let (
            Some(AttributeValues::Float32x3(positions)),
            Some(AttributeValues::Uint16x4(joint_indices)),
            Some(AttributeValues::Float32x4(joint_weights)),
        ) = (positions, joint_indices, joint_weights) {
            if joint_indices.len() != positions.len() || joint_weights.len() != positions.len() {
                return InfluenceIterator::default();
            }
            return InfluenceIterator {
                vertex_index: 0,
                influence_index: 0,
                positions,
                joint_indices,
                joint_weights,
            };
        }
        InfluenceIterator::default()
    }

    /// Starts at the first vertex of a mesh, if its vertices are at hand.
    pub fn try_new(mesh: &Mesh) -> (r: Result<Self, SkinError>)
        ensures
            r is Ok <==> mesh_is_readable(*mesh),
            r matches Ok(influences) ==> {
                &&& influences.well_formed()
                &&& influences.skin() == mesh_skin(*mesh)
                &&& influences.slot() == 0
                &&& influences.remaining() == mesh_influences(*mesh)
            },
            r matches Err(e) ==> e == SkinError::MeshNotReadable,
    {
        match read_attribute(mesh, SkinAttribute::Position) {
            Ok(_) => Ok(InfluenceIterator::new(mesh)),
            Err(_) => Err(SkinError::MeshNotReadable),
        }
    }

    /// The next influence, if there is one.
    ///
    /// It then stands right behind the slot of that influence, or else at the end, where it stays.
    pub fn next(&mut self) -> (r: Option<Influence>)
        requires
            old(self).well_formed(),
        ensures
            final(self).well_formed(),
            final(self).skin() == old(self).skin(),
            final(self).slot() >= old(self).slot(),
            r is None <==> old(self).remaining().len() == 0,
            r is None ==> {
                &&& final(self).is_at_end()
                &&& final(self).slot() == final(self).end()
                &&& final(self).remaining().len() == 0
                &&& forall|slot: int|
                    old(self).slot() <= slot < final(self).end() ==> !#[trigger] has_weight(
                        old(self).skin(),
                        slot,
                    )
            },
            old(self).is_at_end() ==> *final(self) == *old(self),
            r matches Some(influence) ==> {
                &&& old(self).slot() < final(self).slot() <= final(self).end()
                &&& has_weight(old(self).skin(), final(self).slot() - 1)
                &&& influence@ == influence_at(old(self).skin(), final(self).slot() - 1)
                &&& forall|slot: int|
                    old(self).slot() <= slot < final(self).slot() - 1 ==> !#[trigger] has_weight(
                        old(self).skin(),
                        slot,
                    )
                &&& influence@ == old(self).remaining()[0]
                &&& final(self).remaining() == old(self).remaining().skip(1)
            },
    {
        let ghost before = *self;
        loop
            invariant
                before == *old(self),
                self.well_formed(),
                self.skin() == before.skin(),
                self.slot() >= before.slot(),
                self.remaining() == before.remaining(),
                before.is_at_end() ==> *self == before,
                forall|slot: int|
                    before.slot() <= slot < self.slot() ==> !#[trigger] has_weight(
                        before.skin(),
                        slot,
                    ),
            decreases MAX_INFLUENCES * self.positions@.len() - self.slot(),
        {
            let num_vertices: usize = self.positions.len();
            if self.influence_index >= MAX_INFLUENCES {
                self.influence_index = 0;
                self.vertex_index += 1;
            }
            if self.vertex_index >= num_vertices {
                return None;
            }
            let position = self.positions[self.vertex_index];
            let joint_index: u16 = self.joint_indices[self.vertex_index][self.influence_index];
            let joint_weight: u32 = self.joint_weights[self.vertex_index][self.influence_index];

            self.influence_index += 1;

            if is_nonzero(joint_weight) {
                return Some(Influence { position, joint_index: joint_index as usize });
            }
        }
    }
}

} // verus!
