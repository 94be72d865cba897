use vstd::prelude::*;
use vstd::multiset::Multiset;
use crate::model::{
    add_agent, add_all, apply_change, apply_changes, bag, change_in_range, drop_agent, drop_all,
    leading_corner, leading_edge, no_empty_bags, trailing_corner, trailing_edge, Bags, TileChanged,
};
use crate::store::{
    bucket_items, map_entries, map_get, map_insert, map_new, map_remove, Bucket, BucketMap, TileKey,
};
use crate::tile::Tile;

verus! {

broadcast use {vstd::seq_lib::group_to_multiset_ensures, vstd::multiset::group_multiset_axioms};

/// The first position of `id` in the bucket, if it is there.
fn position_of(bucket: &Bucket, id: u64) -> (r: Option<usize>)
    ensures
        r matches Some(i) ==> i < bucket_items(*bucket).len() && bucket_items(*bucket)[i as int]
            == id,
        r is None ==> !bucket_items(*bucket).contains(id),
{
    let n = bucket.len();
    let mut i: usize = 0;
    while i < n
        invariant
            n == bucket_items(*bucket).len(),
            i <= n,
            forall|j: int| 0 <= j < i ==> bucket_items(*bucket)[j] != id,
        decreases n - i,
    {
        if bucket.at(i) == id {
            return Some(i);
        }
        i = i + 1;
    }
    None
}

/// For every tile, the agents whose 3x3 neighbourhood covers it.
pub struct TileIndex {
    index: BucketMap,
}

impl Default for TileIndex {
    fn default() -> (r: TileIndex)
        ensures
            r.wf(),
            r.model() == Bags::empty(),
    {
        TileIndex::new()
    }
}

impl TileIndex {
    /// The agents listed under each occupied tile, in storage order.
    pub closed spec fn buckets(&self) -> Map<TileKey, Seq<u64>> {
        map_entries(self.index).map_values(|b: Bucket| bucket_items(b))
    }

    /// The agents of each occupied tile, without their order.
    pub open spec fn model(&self) -> Bags {
        self.buckets().map_values(|s: Seq<u64>| s.to_multiset())
    }

    /// No tile keeps an empty bucket.
    pub open spec fn wf(&self) -> bool {
        forall|k: TileKey| #[trigger] self.buckets().contains_key(k) ==> self.buckets()[k].len() > 0
    }

    /// A well-formed index has no empty bag in its model.
    pub proof fn lemma_wf_no_empty_bags(&self)
        requires
            self.wf(),
        ensures
            no_empty_bags(self.model()),
    {
        assert forall|k: TileKey| #[trigger] self.model().contains_key(k) implies self.model()[k].len()
            > 0 by {
            assert(self.buckets().contains_key(k));
            assert(self.buckets()[k].to_multiset().len() == self.buckets()[k].len());
        }
    }

    pub fn new() -> (r: TileIndex)
        ensures
            r.wf(),
            r.buckets() == Map::<TileKey, Seq<u64>>::empty(),
            r.model() == Bags::empty(),
    {
        let r = TileIndex { index: map_new() };
        assert(map_entries(r.index) =~= Map::empty());
        assert(r.buckets() =~= Map::empty());
        assert(r.model() =~= Map::empty());
        r
    }

    /// The agents listed under `tile`; empty where it has no bucket.
    pub fn get(&self, tile: Tile) -> (r: &[u64])
        ensures
            r@ == (if self.buckets().contains_key(tile.key()) {
                self.buckets()[tile.key()]
            } else {
                Seq::<u64>::empty()
            }),
    {
        match map_get(&self.index, &tile.as_key()) {
            Some(b) => b.as_slice(),
            None => &[],
        }
    }

    /// Adds `id` once to the bucket of `tile`, creating the bucket if needed.
    fn insert(&mut self, id: u64, tile: Tile)
        requires
            old(self).wf(),
        ensures
            final(self).wf(),
            final(self).model() == add_agent(old(self).model(), id, tile),
    {
        let key = tile.as_key();
        let ghost before = map_entries(self.index);
        let mut bucket = match map_remove(&mut self.index, &key) {
            Some(b) => b,
            None => Bucket::new(),
        };
        let ghost prior = bucket_items(bucket);
        bucket.push(id);
        let ghost pushed = bucket_items(bucket);
        map_insert(&mut self.index, key, bucket);
        proof {
            assert(map_entries(self.index) =~= before.insert(key, bucket));
            assert(self.buckets() =~= old(self).buckets().insert(key, pushed));
            assert(prior.to_multiset() =~= bag(old(self).model(), key));
            assert(self.model() =~= add_agent(old(self).model(), id, tile));
        }
    }

    /// Takes one copy of `id` out of the bucket of `tile`, if it is there, and
    /// drops the bucket once it is empty.
    fn remove(&mut self, id: u64, tile: Tile)
        requires
            old(self).wf(),
        ensures
            final(self).wf(),
            final(self).model() == drop_agent(old(self).model(), id, tile),
    {
        let key = tile.as_key();
        let ghost before = map_entries(self.index);
        match map_remove(&mut self.index, &key) {
            None => {
                proof {
                    assert(self.buckets() =~= old(self).buckets());
                    assert(bag(old(self).model(), key) =~= Multiset::empty());
                    assert(Multiset::<u64>::empty().remove(id) =~= Multiset::empty());
                    assert(self.model() =~= drop_agent(old(self).model(), id, tile));
                }
            },
            Some(mut bucket) => {
                let ghost prior = bucket_items(bucket);
                match position_of(&bucket, id) {
                    Some(i) => {
                        bucket.swap_remove(i);
                        proof {
                            let t = prior.update(i as int, prior.last());
                            assert(t.drop_last() =~= t.remove(t.len() - 1));
                            assert(t.to_multiset() == prior.to_multiset().insert(prior.last()).remove(id));
                        }
                    },
                    None => {},
                }
                let ghost left = bucket_items(bucket);
                proof {
                    assert(prior.to_multiset() == bag(old(self).model(), key));
                    assert(left.to_multiset() =~= prior.to_multiset().remove(id));
                }
                if bucket.len() > 0 {
                    map_insert(&mut self.index, key, bucket);
                    proof {
                        assert(map_entries(self.index) =~= before.insert(key, bucket));
                        assert(self.buckets() =~= old(self).buckets().insert(key, left));
                        assert(self.model() =~= drop_agent(old(self).model(), id, tile));
                    }
                } else {
                    proof {
                        assert(self.buckets() =~= old(self).buckets().remove(key));
                        assert(self.model() =~= drop_agent(old(self).model(), id, tile));
                    }
                }
            },
        }
    }

    /// Adds `id` once to the bucket of each tile of `tiles`, in order.
    fn insert_tiles(&mut self, id: u64, tiles: &[Tile])
        requires
            old(self).wf(),
        ensures
            final(self).wf(),
            final(self).model() == add_all(old(self).model(), id, tiles@),
    {
        let ghost m0 = self.model();
        let mut i: usize = 0;
        while i < tiles.len()
            invariant
                self.wf(),
                i <= tiles@.len(),
                self.model() == add_all(m0, id, tiles@.take(i as int)),
            decreases tiles.len() - i,
        {
            self.insert(id, tiles[i]);
            proof {
                assert(tiles@.take(i + 1).drop_last() =~= tiles@.take(i as int));
            }
            i = i + 1;
        }
        proof {
            assert(tiles@.take(i as int) =~= tiles@);
        }
    }

    /// Takes `id` out of the bucket of each tile of `tiles`, in order.
    fn remove_tiles(&mut self, id: u64, tiles: &[Tile])
        requires
            old(self).wf(),
        ensures
            final(self).wf(),
            final(self).model() == drop_all(old(self).model(), id, tiles@),
    {
        let ghost m0 = self.model();
        let mut i: usize = 0;
        while i < tiles.len()
            invariant
                self.wf(),
                i <= tiles@.len(),
                self.model() == drop_all(m0, id, tiles@.take(i as int)),
            decreases tiles.len() - i,
        {
            self.remove(id, tiles[i]);
            proof {
                assert(tiles@.take(i + 1).drop_last() =~= tiles@.take(i as int));
            }
            i = i + 1;
        }
        proof {
            assert(tiles@.take(i as int) =~= tiles@);
        }
    }

    /// Adds `id` to the nine buckets around `tile`.
    fn insert_neighborhood(&mut self, id: u64, tile: Tile)
        requires
            old(self).wf(),
            tile.in_range(),
        ensures
            final(self).wf(),
            final(self).model() == add_all(old(self).model(), id, tile.ball()),
    {
        let tiles = tile.neighborhood();
        self.insert_tiles(id, &tiles);
    }

    /// Takes `id` out of the nine buckets around `tile`.
    fn remove_neighborhood(&mut self, id: u64, tile: Tile)
        requires
            old(self).wf(),
            tile.in_range(),
        ensures
            final(self).wf(),
            final(self).model() == drop_all(old(self).model(), id, tile.ball()),
    {
        let tiles = tile.neighborhood();
        self.remove_tiles(id, &tiles);
    }

    /// Moves the agent's footprint from the neighbourhood of `event.old` to
    /// that of `event.new`, touching only the buckets that change on a
    /// one-tile step.
    pub fn update(&mut self, event: &TileChanged)
        requires
            old(self).wf(),
            change_in_range(*event),
        ensures
            final(self).wf(),
            final(self).model() == apply_change(old(self).model(), *event),
    {
        let agent = event.agent;
        match (event.old, event.new) {
            (None, None) => {},
            (Some(from), None) => self.remove_neighborhood(agent, from),
            (None, Some(to)) => self.insert_neighborhood(agent, to),
            (Some(from), Some(to)) => {
                if from.layer != to.layer {
                    self.remove_neighborhood(agent, from);
                    self.insert_neighborhood(agent, to);
                } else {
                    let layer = from.layer;
                    let (ox, oy) = (from.x, from.y);
                    let (nx, ny) = (to.x, to.y);
                    let dx: i64 = nx as i64 - ox as i64;
                    let dy: i64 = ny as i64 - oy as i64;
                    if dx == 0 && dy == 0 {
                    } else if (dy == 0 && (dx == 1 || dx == -1)) || (dx == 0 && (dy == 1 || dy
                        == -1)) {
                        let (dx, dy) = (dx as i32, dy as i32);
                        let trailing = [
                            Tile::new(layer, ox - dx + dy, oy - dy + dx),
                            Tile::new(layer, ox - dx, oy - dy),
                            Tile::new(layer, ox - dx - dy, oy - dy - dx),
                        ];
                        let leading = [
                            Tile::new(layer, nx + dx + dy, ny + dy + dx),
                            Tile::new(layer, nx + dx, ny + dy),
                            Tile::new(layer, nx + dx - dy, ny + dy - dx),
                        ];
                        assert(trailing@ =~= trailing_edge(from, dx as int, dy as int));
                        assert(leading@ =~= leading_edge(to, dx as int, dy as int));
                        self.remove_tiles(agent, &trailing);
                        self.insert_tiles(agent, &leading);
                    } else if (dx == 1 || dx == -1) && (dy == 1 || dy == -1) {
                        let (dx, dy) = (dx as i32, dy as i32);
                        let trailing = [
                            Tile::new(layer, ox + dx, oy - dy),
                            Tile::new(layer, ox, oy - dy),
                            Tile::new(layer, ox - dx, oy - dy),
                            Tile::new(layer, ox - dx, oy),
                            Tile::new(layer, ox - dx, oy + dy),
                        ];
                        let leading = [
                            Tile::new(layer, nx - dx, ny + dy),
                            Tile::new(layer, nx, ny + dy),
                            Tile::new(layer, nx + dx, ny + dy),
                            Tile::new(layer, nx + dx, ny),
                            Tile::new(layer, nx + dx, ny - dy),
                        ];
                        assert(trailing@ =~= trailing_corner(from, dx as int, dy as int));
                        assert(leading@ =~= leading_corner(to, dx as int, dy as int));
                        self.remove_tiles(agent, &trailing);
                        self.insert_tiles(agent, &leading);
                    } else {
                        self.remove_neighborhood(agent, from);
                        self.insert_neighborhood(agent, to);
                    }
                }
            },
        }
    }

    /// Applies the changes in the order given.
    pub fn update_all(&mut self, events: &[TileChanged])
        requires
            old(self).wf(),
            forall|i: int| 0 <= i < events@.len() ==> change_in_range(#[trigger] events@[i]),
        ensures
            final(self).wf(),
            final(self).model() == apply_changes(old(self).model(), events@),
    {
        let ghost m0 = self.model();
        let mut i: usize = 0;
        while i < events.len()
            invariant
                self.wf(),
                i <= events@.len(),
                forall|j: int| 0 <= j < events@.len() ==> change_in_range(#[trigger] events@[j]),
                self.model() == apply_changes(m0, events@.take(i as int)),
            decreases events.len() - i,
        {
            self.update(&events[i]);
            proof {
                assert(events@.take(i + 1).drop_last() =~= events@.take(i as int));
            }
            i = i + 1;
        }
        proof {
            assert(events@.take(i as int) =~= events@);
        }
    }
}

} // verus!
