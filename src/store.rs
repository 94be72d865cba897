use vstd::prelude::*;
use smallvec::SmallVec;
use bevy::platform::collections::HashMap;
use bevy::platform::hash::FixedHasher;

verus! {

#[verifier::external_type_specification]
#[verifier::external_body]
#[verifier::reject_recursive_types(K)]
#[verifier::reject_recursive_types(V)]
#[verifier::reject_recursive_types(S)]
pub struct ExHashMap<K, V, S>(HashMap<K, V, S>);

#[verifier::external_type_specification]
#[verifier::external_body]
pub struct ExFixedHasher(FixedHasher);

/// A tile as a map key: layer, column, row.
pub type TileKey = (u64, i32, i32);

/// The tile index's storage: one bucket per occupied tile.
pub type BucketMap = HashMap<TileKey, Bucket>;

/// The agents listed under one tile, kept in a `SmallVec` of smallvec. Verus
/// cannot declare `SmallVec<A: Array>` itself (its bound is a trait of that
/// crate), so the vector stays private here and is reached only through the
/// methods below.
#[verifier::external_body]
pub struct Bucket {
    items: SmallVec<[u64; 7]>,
}

/// The agents held by a bucket, in storage order.
pub uninterp spec fn bucket_items(b: Bucket) -> Seq<u64>;

/// The buckets held by a bucket map, by tile key.
pub uninterp spec fn map_entries(m: BucketMap) -> Map<TileKey, Bucket>;

impl Bucket {
    /// Relies on `SmallVec::new`: a new vector is empty.
    #[verifier::external_body]
    pub(crate) fn new() -> (r: Bucket)
        ensures
            bucket_items(r) == Seq::<u64>::empty(),
    {
        Bucket { items: SmallVec::new() }
    }

    /// Relies on `SmallVec::push`: appends at the end.
    #[verifier::external_body]
    pub(crate) fn push(&mut self, id: u64)
        ensures
            bucket_items(*final(self)) == bucket_items(*old(self)).push(id),
    {
        self.items.push(id)
    }

    /// Relies on `SmallVec::len`: the number of items held.
    #[verifier::external_body]
    pub(crate) fn len(&self) -> (r: usize)
        ensures
            r == bucket_items(*self).len(),
    {
        self.items.len()
    }

    /// Relies on indexing a `SmallVec`: the item at position `i`.
    #[verifier::external_body]
    pub(crate) fn at(&self, i: usize) -> (r: u64)
        requires
            i < bucket_items(*self).len(),
        ensures
            r == bucket_items(*self)[i as int],
    {
        self.items[i]
    }

    /// Relies on `SmallVec::swap_remove`: the last item takes the place of
    /// the removed one.
    #[verifier::external_body]
    pub(crate) fn swap_remove(&mut self, i: usize) -> (r: u64)
        requires
            i < bucket_items(*old(self)).len(),
        ensures
            r == bucket_items(*old(self))[i as int],
            bucket_items(*final(self)) == bucket_items(*old(self)).update(
                i as int,
                bucket_items(*old(self)).last(),
            ).drop_last(),
    {
        self.items.swap_remove(i)
    }

    /// Relies on `SmallVec::as_slice`: the items in storage order.
    #[verifier::external_body]
    pub(crate) fn as_slice(&self) -> (r: &[u64])
        ensures
            r@ == bucket_items(*self),
    {
        self.items.as_slice()
    }
}

/// Relies on `HashMap::new` of bevy's platform collections (a hashbrown map
/// with a fixed hasher): a new map is empty.
#[verifier::external_body]
pub(crate) fn map_new() -> (r: BucketMap)
    ensures
        map_entries(r).dom() == Set::<TileKey>::empty(),
{
    HashMap::new()
}

/// Relies on `HashMap::get` of bevy's platform collections: the bucket
/// stored under `k`, if any. Keys are tuples of integers, whose equality and
/// hash are std's.
#[verifier::external_body]
pub(crate) fn map_get<'a>(m: &'a BucketMap, k: &TileKey) -> (r: Option<&'a Bucket>)
    ensures
        r is Some <==> map_entries(*m).contains_key(*k),
        r matches Some(b) ==> *b == map_entries(*m)[*k],
{
    m.get(k)
}

/// Relies on `HashMap::insert` of bevy's platform collections: stores `v`
/// under `k`, replacing what was there.
#[verifier::external_body]
pub(crate) fn map_insert(m: &mut BucketMap, k: TileKey, v: Bucket)
    ensures
        map_entries(*final(m)) == map_entries(*old(m)).insert(k, v),
{
    m.insert(k, v);
}

/// Relies on `HashMap::remove` of bevy's platform collections: takes out the
/// bucket stored under `k`, if any.
#[verifier::external_body]
pub(crate) fn map_remove(m: &mut BucketMap, k: &TileKey) -> (r: Option<Bucket>)
    ensures
        map_entries(*final(m)) == map_entries(*old(m)).remove(*k),
        r is Some <==> map_entries(*old(m)).contains_key(*k),
        r matches Some(b) ==> b == map_entries(*old(m))[*k],
{
    m.remove(k)
}

} // verus!
