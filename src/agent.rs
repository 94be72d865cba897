use vstd::prelude::*;
use crate::model::TileChanged;
use crate::tile::Tile;

verus! {

/// The change to report when an agent's cached tile is `cached` and it
/// occupies `current` now: none where the two agree.
pub open spec fn reported_change(
    agent: u64,
    cached: Option<Tile>,
    current: Option<Tile>,
) -> Option<TileChanged> {
    if cached == current {
        None
    } else {
        Some(TileChanged { agent, old: cached, new: current })
    }
}

/// Records the tile an agent occupies now (`None`: it has no layer) in its
/// cache, and reports the change where it differs from the cached one.
pub fn update_tile(agent: u64, cached: &mut Option<Tile>, current: Option<Tile>) -> (r: Option<TileChanged>)
    ensures
        *final(cached) == current,
        r == reported_change(agent, *old(cached), current),
{
    let previous = *cached;
    let same = match (previous, current) {
        (None, None) => true,
        (Some(a), Some(b)) => a == b,
        _ => false,
    };
    *cached = current;
    if same {
        None
    } else {
        Some(TileChanged { agent, old: previous, new: current })
    }
}

/// The change to report when an agent leaves the simulation (it is despawned,
/// or its cached state is replaced): its cached tile, if any, is vacated.
pub fn on_replace(agent: u64, cached: Option<Tile>) -> (r: Option<TileChanged>)
    ensures
        r == (match cached {
            Some(t) => Some(TileChanged { agent, old: Some(t), new: None }),
            None => None,
        }),
{
    match cached {
        Some(t) => Some(TileChanged { agent, old: Some(t), new: None }),
        None => None,
    }
}

} // verus!
