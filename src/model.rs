use vstd::prelude::*;
use vstd::multiset::Multiset;
use crate::store::TileKey;
use crate::tile::Tile;

verus! {

/// The tile index as mathematics: the agents of each occupied tile, as a bag.
pub type Bags = Map<TileKey, Multiset<u64>>;

/// A request to move an agent's footprint in the index: `old` and `new` are the
/// tiles the agent occupied before and occupies now (`None`: no layer).
#[derive(Clone, Copy, Debug, PartialEq, Eq, Structural)]
pub struct TileChanged {
    pub agent: u64,
    pub old: Option<Tile>,
    pub new: Option<Tile>,
}

/// The agents of tile `k`; empty where the tile has no bucket.
pub open spec fn bag(m: Bags, k: TileKey) -> Multiset<u64> {
    if m.contains_key(k) {
        m[k]
    } else {
        Multiset::empty()
    }
}

/// No tile keeps an empty bucket.
pub open spec fn no_empty_bags(m: Bags) -> bool {
    forall|k: TileKey| #[trigger] m.contains_key(k) ==> m[k].len() > 0
}

/// Appends one copy of `a` to the bucket of `t`.
pub open spec fn add_agent(m: Bags, a: u64, t: Tile) -> Bags {
    m.insert(t.key(), bag(m, t.key()).insert(a))
}

/// Takes one copy of `a`, if any, out of the bucket of `t`, and drops the
/// bucket once it is empty.
pub open spec fn drop_agent(m: Bags, a: u64, t: Tile) -> Bags {
    let b = bag(m, t.key()).remove(a);
    if b.len() == 0 {
        m.remove(t.key())
    } else {
        m.insert(t.key(), b)
    }
}

/// `add_agent` on each tile of `ts`, first to last.
pub open spec fn add_all(m: Bags, a: u64, ts: Seq<Tile>) -> Bags
    decreases ts.len(),
{
    if ts.len() == 0 {
        m
    } else {
        add_agent(add_all(m, a, ts.drop_last()), a, ts.last())
    }
}

/// `drop_agent` on each tile of `ts`, first to last.
pub open spec fn drop_all(m: Bags, a: u64, ts: Seq<Tile>) -> Bags
    decreases ts.len(),
{
    if ts.len() == 0 {
        m
    } else {
        drop_agent(drop_all(m, a, ts.drop_last()), a, ts.last())
    }
}

/// The three tiles that leave the neighbourhood on a one-tile step `(dx, dy)`
/// along an axis from `o`.
pub open spec fn trailing_edge(o: Tile, dx: int, dy: int) -> Seq<Tile> {
    seq![o.offset(-dx + dy, -dy + dx), o.offset(-dx, -dy), o.offset(-dx - dy, -dy - dx)]
}

/// The three tiles that join the neighbourhood on a one-tile step `(dx, dy)`
/// along an axis to `n`.
pub open spec fn leading_edge(n: Tile, dx: int, dy: int) -> Seq<Tile> {
    seq![n.offset(dx + dy, dy + dx), n.offset(dx, dy), n.offset(dx - dy, dy - dx)]
}

/// The five tiles that leave the neighbourhood on a diagonal step from `o`.
pub open spec fn trailing_corner(o: Tile, dx: int, dy: int) -> Seq<Tile> {
    seq![
        o.offset(dx, -dy), o.offset(0, -dy), o.offset(-dx, -dy), o.offset(-dx, 0), o.offset(-dx, dy),
    ]
}

/// The five tiles that join the neighbourhood on a diagonal step to `n`.
pub open spec fn leading_corner(n: Tile, dx: int, dy: int) -> Seq<Tile> {
    seq![n.offset(-dx, dy), n.offset(0, dy), n.offset(dx, dy), n.offset(dx, 0), n.offset(dx, -dy)]
}

pub open spec fn is_axis_step(dx: int, dy: int) -> bool {
    (dy == 0 && (dx == 1 || dx == -1)) || (dx == 0 && (dy == 1 || dy == -1))
}

pub open spec fn is_diagonal_step(dx: int, dy: int) -> bool {
    (dx == 1 || dx == -1) && (dy == 1 || dy == -1)
}

/// Removes the agent from the neighbourhood of `o` and adds it to that of `n`.
pub open spec fn relocate(m: Bags, a: u64, o: Tile, n: Tile) -> Bags {
    add_all(drop_all(m, a, o.ball()), a, n.ball())
}

/// What applying one change does to the index.
pub open spec fn apply_change(m: Bags, e: TileChanged) -> Bags {
    let a = e.agent;
    match (e.old, e.new) {
        (None, None) => m,
        (Some(o), None) => drop_all(m, a, o.ball()),
        (None, Some(n)) => add_all(m, a, n.ball()),
        (Some(o), Some(n)) => {
            let dx = n.x - o.x;
            let dy = n.y - o.y;
            if o.layer != n.layer {
                relocate(m, a, o, n)
            } else if dx == 0 && dy == 0 {
                m
            } else if is_axis_step(dx, dy) {
                add_all(drop_all(m, a, trailing_edge(o, dx, dy)), a, leading_edge(n, dx, dy))
            } else if is_diagonal_step(dx, dy) {
                add_all(drop_all(m, a, trailing_corner(o, dx, dy)), a, leading_corner(n, dx, dy))
            } else {
                relocate(m, a, o, n)
            }
        },
    }
}

/// Both tiles of a change, where present, have neighbourhoods that fit in `i32`.
pub open spec fn change_in_range(e: TileChanged) -> bool {
    &&& (e.old matches Some(o) ==> o.in_range())
    &&& (e.new matches Some(n) ==> n.in_range())
}

/// Applies the changes in order.
pub open spec fn apply_changes(m: Bags, es: Seq<TileChanged>) -> Bags
    decreases es.len(),
{
    if es.len() == 0 {
        m
    } else {
        apply_change(apply_changes(m, es.drop_last()), es.last())
    }
}

} // verus!
