//! The collection of all [`SkinnedAabbAsset`]s.
use bevy_asset::uuid::Uuid;
use bevy_asset::{
    Asset, AssetId, AssetIndex, Assets, UntypedAssetId, UntypedHandle, VisitAssetDependencies,
};
use bevy_reflect::TypePath;
use vstd::prelude::*;

use crate::asset::{AssetKey, SkinnedAabbAsset, SkinnedAabbSourceAssets};

verus! {

/// `bevy_asset::UntypedHandle`, known by [`handle_key`].
#[verifier::external_type_specification]
#[verifier::external_body]
pub struct ExUntypedHandle(UntypedHandle);

/// `bevy_asset::UntypedAssetId`, which assets hand to a visitor of their dependencies.
#[verifier::external_type_specification]
#[verifier::external_body]
pub struct ExUntypedAssetId(UntypedAssetId);

/// A [`SkinnedAabbAsset`] holds no handles, so it depends on no asset.
impl VisitAssetDependencies for SkinnedAabbAsset {
    fn visit_dependencies(&self, _visit: &mut impl FnMut(UntypedAssetId)) {
    }
}

impl TypePath for SkinnedAabbAsset {
    fn type_path() -> (r: &'static str)
        ensures
            r@ == "bevy_mod_skinned_aabb::SkinnedAabbAsset"@,
    {
        "bevy_mod_skinned_aabb::SkinnedAabbAsset"
    }

    fn short_type_path() -> (r: &'static str)
        ensures
            r@ == "SkinnedAabbAsset"@,
    {
        "SkinnedAabbAsset"
    }

    fn type_ident() -> (r: Option<&'static str>)
        ensures
            r matches Some(ident) && ident@ == "SkinnedAabbAsset"@,
    {
        Some("SkinnedAabbAsset")
    }

    fn crate_name() -> (r: Option<&'static str>)
        ensures
            r matches Some(name) && name@ == "bevy_mod_skinned_aabb"@,
    {
        Some("bevy_mod_skinned_aabb")
    }
}

impl Asset for SkinnedAabbAsset {

}

/// A `bevy_asset::Assets<SkinnedAabbAsset>`, known by [`stored_assets`] and
/// [`shared_handle_count`]. An application moves its own collection in and out through `inner`.
#[verifier::external_body]
pub struct SkinnedAabbAssets {
    pub inner: Assets<SkinnedAabbAsset>,
}

/// The asset that a handle refers to.
pub uninterp spec fn handle_key(handle: UntypedHandle) -> AssetKey;

/// The assets in the collection.
pub uninterp spec fn stored_assets(assets: SkinnedAabbAssets) -> Map<AssetKey, SkinnedAabbAsset>;

/// How many handles to an asset the collection has given out for an asset that it held already,
/// and not taken back.
pub uninterp spec fn shared_handle_count(assets: SkinnedAabbAssets, key: AssetKey) -> nat;

/// The place of an asset in the collection: two assets have the same place only at different
/// times.
pub open spec fn slot(key: AssetKey) -> int {
    match key {
        AssetKey::Index { bits } => bits as int % 0x1_0000_0000,
        AssetKey::Uuid { .. } => -1,
    }
}

/// Whether the entries list what is stored, each asset once: first those with a place in the
/// collection, in the order of their places, then those with a name.
pub open spec fn is_listing(
    entries: Seq<(AssetKey, SkinnedAabbSourceAssets)>,
    stored: Map<AssetKey, SkinnedAabbAsset>,
) -> bool {
    &&& forall|e: int|
        0 <= e < entries.len() ==> stored.dom().contains((#[trigger] entries[e]).0)
            && stored[entries[e].0].source == entries[e].1
    &&& forall|k: AssetKey| #[trigger]
        stored.dom().contains(k) ==> exists|e: int|
            0 <= e < entries.len() && (#[trigger] entries[e]).0 == k
    &&& forall|d: int, e: int|
        0 <= d < e < entries.len() ==> {
            &&& (#[trigger] entries[d]).0 != (#[trigger] entries[e]).0
            &&& entries[e].0 is Index ==> entries[d].0 is Index && slot(entries[d].0) < slot(
                entries[e].0,
            )
        }
}

/// `UntypedHandle::id`: the asset that the handle refers to.
#[verifier::external_body]
pub(crate) fn key_of_handle(handle: &UntypedHandle) -> (r: AssetKey)
    ensures
        r == handle_key(*handle),
{
    match handle.id() {
        UntypedAssetId::Index { index, .. } => AssetKey::Index { bits: index.to_bits() },
        UntypedAssetId::Uuid { uuid, .. } => AssetKey::Uuid { uuid: uuid.as_u128() },
    }
}

/// `Assets::default`: an empty collection.
#[verifier::external_body]
fn empty_assets() -> (r: SkinnedAabbAssets)
    ensures
        forall|k: AssetKey| !(#[trigger] stored_assets(r).dom().contains(k)),
        forall|k: AssetKey| #[trigger] shared_handle_count(r, k) == 0,
{
    SkinnedAabbAssets { inner: Assets::default() }
}

/// `Assets::iter`: every asset in the collection, here by its key and its sources.
#[verifier::external_body]
fn list_assets(assets: &SkinnedAabbAssets) -> (r: Vec<(AssetKey, SkinnedAabbSourceAssets)>)
    ensures
        is_listing(r@, stored_assets(*assets)),
{
    assets.inner.iter().map(
        |(id, asset)|
            match id {
                AssetId::Index { index, .. } => {
                    (AssetKey::Index { bits: index.to_bits() }, asset.source)
                },
                AssetId::Uuid { uuid } => (AssetKey::Uuid { uuid: uuid.as_u128() }, asset.source),
            },
    ).collect()
}

/// `Assets::get_strong_handle`: a handle to an asset in the collection. There is none for an asset
/// with a name. The collection counts these handles for each asset in 16 bits.
#[verifier::external_body]
fn strong_handle(assets: &mut SkinnedAabbAssets, key: AssetKey) -> (r: Option<UntypedHandle>)
    requires
        key is Index && stored_assets(*old(assets)).dom().contains(key) ==> shared_handle_count(
            *old(assets),
            key,
        ) < u16::MAX,
    ensures
        stored_assets(*final(assets)) == stored_assets(*old(assets)),
        r is Some <==> key is Index && stored_assets(*old(assets)).dom().contains(key),
        r matches Some(handle) ==> handle_key(handle) == key,
        forall|k: AssetKey| #[trigger]
            shared_handle_count(*final(assets), k) == shared_handle_count(*old(assets), k) + (
            if r is Some && k == key {
                1nat
            } else {
                0nat
            }),
{
    let id = match key {
        AssetKey::Index { bits } => AssetId::from(AssetIndex::from_bits(bits)),
        AssetKey::Uuid { uuid } => AssetId::Uuid { uuid: Uuid::from_u128(uuid) },
    };
    assets.inner.get_strong_handle(id).map(|handle| handle.untyped())
}

/// `Assets::add`: puts an asset into the collection, under a key that was never used before, and
/// gives a handle to it.
#[verifier::external_body]
pub(crate) fn add_asset(assets: &mut SkinnedAabbAssets, asset: SkinnedAabbAsset) -> (r: UntypedHandle)
    ensures
        handle_key(r) is Index,
        !stored_assets(*old(assets)).dom().contains(handle_key(r)),
        stored_assets(*final(assets)) == stored_assets(*old(assets)).insert(handle_key(r), asset),
        shared_handle_count(*final(assets), handle_key(r)) == 0,
        forall|k: AssetKey| #[trigger]
            shared_handle_count(*final(assets), k) == shared_handle_count(*old(assets), k),
{
    assets.inner.add(asset).untyped()
}

impl SkinnedAabbAssets {
    /// An empty collection.
    pub fn new() -> (r: Self)
        ensures
            stored_assets(r) == Map::<AssetKey, SkinnedAabbAsset>::empty(),
            forall|k: AssetKey| #[trigger] shared_handle_count(r, k) == 0,
    {
        let r = empty_assets();
        assert(stored_assets(r) =~= Map::<AssetKey, SkinnedAabbAsset>::empty());
        r
    }
}

/// Whether `key` is that of a stored asset with a place in the collection that was made from
/// `source`.
pub open spec fn is_match(
    stored: Map<AssetKey, SkinnedAabbAsset>,
    source: SkinnedAabbSourceAssets,
    key: AssetKey,
) -> bool {
    key is Index && stored.dom().contains(key) && stored[key].source == source
}

/// Whether some stored asset made from `source` can be shared.
pub open spec fn has_match(
    stored: Map<AssetKey, SkinnedAabbAsset>,
    source: SkinnedAabbSourceAssets,
) -> bool {
    exists|key: AssetKey| is_match(stored, source, key)
}

/// Whether `key` is that of the match with the lowest place.
pub open spec fn is_first_match(
    stored: Map<AssetKey, SkinnedAabbAsset>,
    source: SkinnedAabbSourceAssets,
    key: AssetKey,
) -> bool {
    &&& is_match(stored, source, key)
    &&& forall|k: AssetKey| #[trigger]
        is_match(stored, source, k) && k != key ==> slot(key) < slot(k)
}

/// Whether `n` more handles can be given out for the asset made from `source`: to the stored one,
/// or, if there is none, to one that the first of the `n` has yet to bring in.
pub open spec fn can_share(
    assets: SkinnedAabbAssets,
    source: SkinnedAabbSourceAssets,
    n: int,
) -> bool {
    &&& forall|k: AssetKey| #[trigger]
        is_first_match(stored_assets(assets), source, k) ==> shared_handle_count(assets, k) + n
            <= u16::MAX
    &&& !has_match(stored_assets(assets), source) ==> n <= u16::MAX + 1
}

/// An asset can be shared where it has a place in the collection and was made from the same sources,
/// and of several the one with the lowest place is; places are the low halves of the bits.
pub proof fn law_lowest_match_is_shared(
    stored: Map<AssetKey, SkinnedAabbAsset>,
    source: SkinnedAabbSourceAssets,
    key: AssetKey,
)
    ensures
        has_match(stored, source) <==> exists|bits: u64|
            (#[trigger] stored.dom().contains(AssetKey::Index { bits })) && stored[AssetKey::Index {
                bits,
            }].source == source,
        is_first_match(stored, source, key) <==> {
            &&& key matches AssetKey::Index { bits }
            &&& stored.dom().contains(key)
            &&& stored[key].source.mesh == source.mesh
            &&& stored[key].source.inverse_bindposes == source.inverse_bindposes
            &&& forall|other: u64|
                (#[trigger] stored.dom().contains(AssetKey::Index { bits: other }))
                    && stored[AssetKey::Index { bits: other }].source == source && other != bits
                    ==> bits % 0x1_0000_0000 < other % 0x1_0000_0000
        },
{
    if has_match(stored, source) {
        let k = choose|k: AssetKey| is_match(stored, source, k);
        assert(stored.dom().contains(AssetKey::Index { bits: k->bits }));
    }
    if exists|bits: u64|
        (#[trigger] stored.dom().contains(AssetKey::Index { bits })) && stored[AssetKey::Index {
            bits,
        }].source == source {
        let bits = choose|bits: u64|
            (#[trigger] stored.dom().contains(AssetKey::Index { bits })) && stored[AssetKey::Index {
                bits,
            }].source == source;
        assert(is_match(stored, source, AssetKey::Index { bits }));
    }
    if is_first_match(stored, source, key) {
        assert forall|other: u64|
            (#[trigger] stored.dom().contains(AssetKey::Index { bits: other }))
                && stored[AssetKey::Index { bits: other }].source == source && other
                != key->bits implies key->bits % 0x1_0000_0000 < other % 0x1_0000_0000 by {
            assert(is_match(stored, source, AssetKey::Index { bits: other }));
        }
    }
    if let AssetKey::Index { bits } = key {
        if stored.dom().contains(key) && stored[key].source == source && (forall|other: u64|
            (#[trigger] stored.dom().contains(AssetKey::Index { bits: other }))
                && stored[AssetKey::Index { bits: other }].source == source && other != bits
                ==> bits % 0x1_0000_0000 < other % 0x1_0000_0000) {
            assert forall|k: AssetKey| #[trigger]
                is_match(stored, source, k) && k != key implies slot(key) < slot(k) by {
                assert(stored.dom().contains(AssetKey::Index { bits: k->bits }));
            }
            assert(is_first_match(stored, source, key));
        }
    }
}

/// There is room for `n` handles exactly where the 16 bits in which handles are counted suffice for
/// them: on top of those counted for the asset to be shared, or, if there is none, but for the first
/// of them, which comes with the new asset and is not counted.
pub proof fn law_room_is_that_of_the_handle_count(
    assets: SkinnedAabbAssets,
    source: SkinnedAabbSourceAssets,
    n: int,
)
    ensures
        can_share(assets, source, n) <==> {
            &&& forall|k: AssetKey| #[trigger]
                is_first_match(stored_assets(assets), source, k) ==> shared_handle_count(assets, k)
                    + n <= 0xffff
            &&& !has_match(stored_assets(assets), source) ==> n <= 0x1_0000
        },
{
}

/// The first entry that was made from `source`.
pub fn find_source(
    entries: &Vec<(AssetKey, SkinnedAabbSourceAssets)>,
    source: SkinnedAabbSourceAssets,
) -> (r: Option<AssetKey>)
    ensures
        r is None <==> forall|e: int| 0 <= e < entries@.len() ==> (#[trigger] entries@[e]).1 != source,
        r matches Some(key) ==> exists|e: int|
            0 <= e < entries@.len() && #[trigger] entries@[e] == (key, source) && forall|d: int|
                0 <= d < e ==> (#[trigger] entries@[d]).1 != source,
{
    let mut e: usize = 0;
    while e < entries.len()
        invariant
            e <= entries@.len(),
            forall|d: int| 0 <= d < e ==> (#[trigger] entries@[d]).1 != source,
        decreases entries@.len() - e,
    {
        if entries[e].1 == source {
            assert(entries@[e as int] == (entries@[e as int].0, source));
            return Some(entries[e].0);
        }
        e += 1;
    }
    None
}

/// A handle to a stored asset that was made from `source`, if there is one that can be shared.
pub(crate) fn share_asset(
    assets: &mut SkinnedAabbAssets,
    source: SkinnedAabbSourceAssets,
) -> (r: Option<UntypedHandle>)
    requires
        can_share(*old(assets), source, 1),
    ensures
        stored_assets(*final(assets)) == stored_assets(*old(assets)),
        r is Some <==> has_match(stored_assets(*old(assets)), source),
        r matches Some(handle) ==> is_first_match(
            stored_assets(*old(assets)),
            source,
            handle_key(handle),
        ),
        forall|k: AssetKey| #[trigger]
            shared_handle_count(*final(assets), k) == shared_handle_count(*old(assets), k) + (
            if r is Some && k == handle_key(r->0) {
                1nat
            } else {
                0nat
            }),
{
    let entries = list_assets(assets);
    let ghost stored = stored_assets(*assets);
    proof {
        assert forall|k: AssetKey| #[trigger] is_match(stored, source, k) implies exists|d: int|
            0 <= d < entries@.len() && (#[trigger] entries@[d]).0 == k && entries@[d].1 == source by {
            let d = choose|d: int| 0 <= d < entries@.len() && (#[trigger] entries@[d]).0 == k;
            assert(entries@[d].1 == source);
        }
    }
    match find_source(&entries, source) {
        Some(key) => {
            proof {
                let e = choose|e: int|
                    0 <= e < entries@.len() && #[trigger] entries@[e] == (key, source) && forall|
                        d: int,
                    |
                        0 <= d < e ==> (#[trigger] entries@[d]).1 != source;
                if key is Index {
                    assert(is_match(stored, source, key));
                    assert(is_first_match(stored, source, key));
                } else {
                    assert(!has_match(stored, source));
                }
            }
            strong_handle(assets, key)
        },
        None => None,
    }
}

} // verus!
