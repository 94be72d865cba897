use vstd::prelude::*;
use crate::model::{
    add_agent, add_all, bag, drop_agent, drop_all, is_axis_step, is_diagonal_step, leading_corner,
    leading_edge, no_empty_bags, trailing_corner, trailing_edge, Bags,
    apply_change, apply_changes, change_in_range, relocate, TileChanged,
};
use crate::agent::reported_change;
use crate::store::TileKey;
use crate::tile::Tile;

verus! {

broadcast use vstd::multiset::group_multiset_axioms;

/// Some tile of `ts` has key `k`.
pub open spec fn lists(ts: Seq<Tile>, k: TileKey) -> bool {
    exists|i: int| 0 <= i < ts.len() && #[trigger] ts[i].key() == k
}

/// No two tiles of `ts` share a key.
pub open spec fn distinct_keys(ts: Seq<Tile>) -> bool {
    forall|i: int, j: int| 0 <= i < j < ts.len() ==> #[trigger] ts[i].key() != #[trigger] ts[j].key()
}

/// Two indexes without empty buckets that agree on every count are equal.
pub proof fn lemma_bags_ext(m1: Bags, m2: Bags)
    requires
        no_empty_bags(m1),
        no_empty_bags(m2),
        forall|k: TileKey, b: u64| bag(m1, k).count(b) == bag(m2, k).count(b),
    ensures
        m1 == m2,
{
    assert forall|k: TileKey| m1.contains_key(k) <==> m2.contains_key(k) by {
        if m1.contains_key(k) && !m2.contains_key(k) {
            vstd::multiset::lemma_multiset_empty_len(m1[k]);
            let b = choose|b: u64| 0 < m1[k].count(b);
            assert(bag(m2, k).count(b) == 0);
        }
        if m2.contains_key(k) && !m1.contains_key(k) {
            vstd::multiset::lemma_multiset_empty_len(m2[k]);
            let b = choose|b: u64| 0 < m2[k].count(b);
            assert(bag(m1, k).count(b) == 0);
        }
    }
    assert forall|k: TileKey| m1.contains_key(k) implies m1[k] == m2[k] by {
        assert(m1[k] =~= m2[k]) by {
            assert forall|b: u64| m1[k].count(b) == m2[k].count(b) by {
                assert(bag(m1, k).count(b) == bag(m2, k).count(b));
            }
        }
    }
    assert(m1 =~= m2);
}

/// Adding an agent to tiles of distinct keys raises its count by one on each of
/// them and changes nothing else.
pub proof fn lemma_add_all_counts(m: Bags, a: u64, ts: Seq<Tile>)
    requires
        no_empty_bags(m),
        distinct_keys(ts),
    ensures
        no_empty_bags(add_all(m, a, ts)),
        forall|k: TileKey, b: u64| #[trigger] bag(add_all(m, a, ts), k).count(b) == bag(m, k).count(b)
            + (if b == a && lists(ts, k) { 1int } else { 0int }),
    decreases ts.len(),
{
    if ts.len() > 0 {
        let init = ts.drop_last();
        lemma_add_all_counts(m, a, init);
        let r0 = add_all(m, a, init);
        let r = add_all(m, a, ts);
        assert(r == add_agent(r0, a, ts.last()));
        assert forall|k: TileKey| lists(ts, k) <==> (lists(init, k) || ts.last().key() == k) by {
            if lists(ts, k) {
                let i = choose|i: int| 0 <= i < ts.len() && #[trigger] ts[i].key() == k;
                if i < ts.len() - 1 {
                    assert(init[i].key() == k);
                }
            }
            if lists(init, k) {
                let i = choose|i: int| 0 <= i < init.len() && #[trigger] init[i].key() == k;
                assert(ts[i].key() == k);
            }
        }
        assert forall|k: TileKey| lists(init, k) implies ts.last().key() != k by {
            let i = choose|i: int| 0 <= i < init.len() && #[trigger] init[i].key() == k;
            assert(ts[i].key() == k);
        }
        assert forall|k: TileKey, b: u64| #[trigger] bag(r, k).count(b) == bag(m, k).count(b) + (if b == a
            && lists(ts, k) { 1int } else { 0int }) by {
            assert(bag(r0, k).count(b) == bag(m, k).count(b) + (if b == a && lists(init, k) {
                1int
            } else {
                0int
            }));
        }
    }
}

/// Taking an agent out of tiles of distinct keys lowers its count by one on
/// each of them where it was there, and changes nothing else.
pub proof fn lemma_drop_all_counts(m: Bags, a: u64, ts: Seq<Tile>)
    requires
        no_empty_bags(m),
        distinct_keys(ts),
    ensures
        no_empty_bags(drop_all(m, a, ts)),
        forall|k: TileKey, b: u64| #[trigger] bag(drop_all(m, a, ts), k).count(b) == (if b == a
            && lists(ts, k) && bag(m, k).count(b) > 0 {
            bag(m, k).count(b) - 1
        } else {
            bag(m, k).count(b) as int
        }),
    decreases ts.len(),
{
    if ts.len() > 0 {
        let init = ts.drop_last();
        lemma_drop_all_counts(m, a, init);
        let r0 = drop_all(m, a, init);
        let r = drop_all(m, a, ts);
        assert(r == drop_agent(r0, a, ts.last()));
        assert forall|k: TileKey| lists(ts, k) <==> (lists(init, k) || ts.last().key() == k) by {
            if lists(ts, k) {
                let i = choose|i: int| 0 <= i < ts.len() && #[trigger] ts[i].key() == k;
                if i < ts.len() - 1 {
                    assert(init[i].key() == k);
                }
            }
            if lists(init, k) {
                let i = choose|i: int| 0 <= i < init.len() && #[trigger] init[i].key() == k;
                assert(ts[i].key() == k);
            }
        }
        assert forall|k: TileKey| lists(init, k) implies ts.last().key() != k by {
            let i = choose|i: int| 0 <= i < init.len() && #[trigger] init[i].key() == k;
            assert(ts[i].key() == k);
        }
        let lk = ts.last().key();
        let left = bag(r0, lk).remove(a);
        if left.len() == 0 {
            vstd::multiset::lemma_multiset_empty_len(left);
        }
        assert forall|k: TileKey, b: u64| #[trigger] bag(r, k).count(b) == (if b == a && lists(ts, k)
            && bag(m, k).count(b) > 0 {
            bag(m, k).count(b) - 1
        } else {
            bag(m, k).count(b) as int
        }) by {
            assert(bag(r0, k).count(b) == (if b == a && lists(init, k) && bag(m, k).count(b) > 0 {
                bag(m, k).count(b) - 1
            } else {
                bag(m, k).count(b) as int
            }));
            if k == lk {
                assert(left.count(b) == (if b == a && bag(r0, k).count(b) > 0 {
                    bag(r0, k).count(b) - 1
                } else {
                    bag(r0, k).count(b) as int
                }));
            }
        }
        assert forall|k: TileKey| #[trigger] r.contains_key(k) implies r[k].len() > 0 by {
            if k != lk {
                assert(r0.contains_key(k));
            }
        }
    }
}

/// The neighbourhood of a tile lists nine distinct keys: those near the tile.
pub proof fn lemma_ball_keys(c: Tile)
    requires
        c.in_range(),
    ensures
        distinct_keys(c.ball()),
        forall|k: TileKey| lists(c.ball(), k) <==> c.near(k),
{
    let ts = c.ball();
    assert forall|i: int| 0 <= i < 9 implies #[trigger] ts[i] == c.offset(i % 3 - 1, i / 3 - 1) by {
        if i == 0 {
        } else if i == 1 {
        } else if i == 2 {
        } else if i == 3 {
        } else if i == 4 {
        } else if i == 5 {
        } else if i == 6 {
        } else if i == 7 {
        } else {
        }
    }
    assert forall|i: int, j: int| 0 <= i < j < ts.len() implies #[trigger] ts[i].key()
        != #[trigger] ts[j].key() by {
        assert(ts[i] == c.offset(i % 3 - 1, i / 3 - 1));
        assert(ts[j] == c.offset(j % 3 - 1, j / 3 - 1));
    }
    assert forall|k: TileKey| lists(ts, k) <==> c.near(k) by {
        if c.near(k) {
            let i = (k.2 - c.y + 1) * 3 + (k.1 - c.x + 1);
            assert(ts[i] == c.offset(i % 3 - 1, i / 3 - 1));
            assert(ts[i].key() == k);
        }
        if lists(ts, k) {
            let i = choose|i: int| 0 <= i < ts.len() && #[trigger] ts[i].key() == k;
            assert(ts[i] == c.offset(i % 3 - 1, i / 3 - 1));
        }
    }
}

/// `n` is one step `(dx, dy)` away from `o`, in the same layer.
pub open spec fn step_between(o: Tile, n: Tile, dx: int, dy: int) -> bool {
    &&& o.in_range()
    &&& n.in_range()
    &&& n.layer == o.layer
    &&& n.x - o.x == dx
    &&& n.y - o.y == dy
}

/// On an axis step the trailing edge lists the keys that leave the
/// neighbourhood, and the leading edge those that join it.
pub proof fn lemma_axis_edges(o: Tile, n: Tile, dx: int, dy: int)
    requires
        step_between(o, n, dx, dy),
        is_axis_step(dx, dy),
    ensures
        distinct_keys(trailing_edge(o, dx, dy)),
        distinct_keys(leading_edge(n, dx, dy)),
        forall|k: TileKey| lists(trailing_edge(o, dx, dy), k) <==> (o.near(k) && !n.near(k)),
        forall|k: TileKey| lists(leading_edge(n, dx, dy), k) <==> (n.near(k) && !o.near(k)),
{
    let tr = trailing_edge(o, dx, dy);
    let ld = leading_edge(n, dx, dy);
    assert forall|i: int, j: int| 0 <= i < j < tr.len() implies #[trigger] tr[i].key()
        != #[trigger] tr[j].key() by {
        assert(i == 0 || i == 1);
        assert(j == 1 || j == 2);
    }
    assert forall|i: int, j: int| 0 <= i < j < ld.len() implies #[trigger] ld[i].key()
        != #[trigger] ld[j].key() by {
        assert(i == 0 || i == 1);
        assert(j == 1 || j == 2);
    }
    assert forall|k: TileKey| lists(tr, k) <==> (o.near(k) && !n.near(k)) by {
        if o.near(k) && !n.near(k) {
            assert(tr[0].key() == k || tr[1].key() == k || tr[2].key() == k);
        }
        if lists(tr, k) {
            let i = choose|i: int| 0 <= i < tr.len() && #[trigger] tr[i].key() == k;
            assert(i == 0 || i == 1 || i == 2);
        }
    }
    assert forall|k: TileKey| lists(ld, k) <==> (n.near(k) && !o.near(k)) by {
        if n.near(k) && !o.near(k) {
            assert(ld[0].key() == k || ld[1].key() == k || ld[2].key() == k);
        }
        if lists(ld, k) {
            let i = choose|i: int| 0 <= i < ld.len() && #[trigger] ld[i].key() == k;
            assert(i == 0 || i == 1 || i == 2);
        }
    }
}

/// On a diagonal step the trailing corner lists the keys that leave the
/// neighbourhood, and the leading corner those that join it.
pub proof fn lemma_diagonal_corners(o: Tile, n: Tile, dx: int, dy: int)
    requires
        step_between(o, n, dx, dy),
        is_diagonal_step(dx, dy),
    ensures
        distinct_keys(trailing_corner(o, dx, dy)),
        distinct_keys(leading_corner(n, dx, dy)),
        forall|k: TileKey| lists(trailing_corner(o, dx, dy), k) <==> (o.near(k) && !n.near(k)),
        forall|k: TileKey| lists(leading_corner(n, dx, dy), k) <==> (n.near(k) && !o.near(k)),
{
    let tr = trailing_corner(o, dx, dy);
    let ld = leading_corner(n, dx, dy);
    assert forall|i: int, j: int| 0 <= i < j < tr.len() implies #[trigger] tr[i].key()
        != #[trigger] tr[j].key() by {
        assert(0 <= i <= 3);
        assert(1 <= j <= 4);
    }
    assert forall|i: int, j: int| 0 <= i < j < ld.len() implies #[trigger] ld[i].key()
        != #[trigger] ld[j].key() by {
        assert(0 <= i <= 3);
        assert(1 <= j <= 4);
    }
    assert forall|k: TileKey| lists(tr, k) <==> (o.near(k) && !n.near(k)) by {
        if o.near(k) && !n.near(k) {
            assert(tr[0].key() == k || tr[1].key() == k || tr[2].key() == k || tr[3].key() == k
                || tr[4].key() == k);
        }
        if lists(tr, k) {
            let i = choose|i: int| 0 <= i < tr.len() && #[trigger] tr[i].key() == k;
            assert(i == 0 || i == 1 || i == 2 || i == 3 || i == 4);
        }
    }
    assert forall|k: TileKey| lists(ld, k) <==> (n.near(k) && !o.near(k)) by {
        if n.near(k) && !o.near(k) {
            assert(ld[0].key() == k || ld[1].key() == k || ld[2].key() == k || ld[3].key() == k
                || ld[4].key() == k);
        }
        if lists(ld, k) {
            let i = choose|i: int| 0 <= i < ld.len() && #[trigger] ld[i].key() == k;
            assert(i == 0 || i == 1 || i == 2 || i == 3 || i == 4);
        }
    }
}

/// The agent `a` is listed exactly once in each bucket of the neighbourhood of
/// `t` and in no other bucket; where `t` is `None`, in no bucket at all.
pub open spec fn footprint(m: Bags, a: u64, t: Option<Tile>) -> bool {
    forall|k: TileKey| #[trigger] bag(m, k).count(a) == (if t matches Some(c) && c.near(k) {
        1int
    } else {
        0int
    })
}

/// Adding an agent to a neighbourhood and then taking it out again gives back
/// the index it started from.
pub proof fn lemma_insert_remove_round_trip(m: Bags, a: u64, c: Tile)
    requires
        no_empty_bags(m),
        c.in_range(),
    ensures
        apply_change(
            apply_change(m, TileChanged { agent: a, old: None, new: Some(c) }),
            TileChanged { agent: a, old: Some(c), new: None },
        ) == m,
{
    lemma_ball_keys(c);
    let m1 = add_all(m, a, c.ball());
    lemma_add_all_counts(m, a, c.ball());
    lemma_drop_all_counts(m1, a, c.ball());
    let m2 = drop_all(m1, a, c.ball());
    assert forall|k: TileKey, b: u64| bag(m2, k).count(b) == bag(m, k).count(b) by {
        assert(bag(m1, k).count(b) == bag(m, k).count(b) + (if b == a && lists(c.ball(), k) {
            1int
        } else {
            0int
        }));
        assert(bag(m2, k).count(b) == (if b == a && lists(c.ball(), k) && bag(m1, k).count(b) > 0 {
            bag(m1, k).count(b) - 1
        } else {
            bag(m1, k).count(b) as int
        }));
    }
    lemma_bags_ext(m2, m);
}

/// Every count after moving agent `a` from the neighbourhood of `o` to that of
/// `n` by a full remove and insert.
proof fn lemma_relocate_counts(m: Bags, a: u64, o: Tile, n: Tile)
    requires
        no_empty_bags(m),
        o.in_range(),
        n.in_range(),
    ensures
        no_empty_bags(relocate(m, a, o, n)),
        forall|k: TileKey, b: u64| #[trigger] bag(relocate(m, a, o, n), k).count(b) == (if b == a {
            (if o.near(k) && bag(m, k).count(b) > 0 {
                bag(m, k).count(b) - 1
            } else {
                bag(m, k).count(b) as int
            }) + (if n.near(k) { 1int } else { 0int })
        } else {
            bag(m, k).count(b) as int
        }),
{
    lemma_ball_keys(o);
    lemma_ball_keys(n);
    let m1 = drop_all(m, a, o.ball());
    lemma_drop_all_counts(m, a, o.ball());
    lemma_add_all_counts(m1, a, n.ball());
    assert forall|k: TileKey, b: u64| #[trigger] bag(relocate(m, a, o, n), k).count(b) == (if b
        == a {
        (if o.near(k) && bag(m, k).count(b) > 0 {
            bag(m, k).count(b) - 1
        } else {
            bag(m, k).count(b) as int
        }) + (if n.near(k) { 1int } else { 0int })
    } else {
        bag(m, k).count(b) as int
    }) by {
        assert(bag(m1, k).count(b) == (if b == a && lists(o.ball(), k) && bag(m, k).count(b) > 0 {
            bag(m, k).count(b) - 1
        } else {
            bag(m, k).count(b) as int
        }));
    }
}

/// On a one-tile step, axis or diagonal, the edge update leaves the index as a
/// full remove and insert would, provided the agent is listed around its old
/// tile.
pub proof fn lemma_step_matches_full_move(m: Bags, a: u64, o: Tile, n: Tile)
    requires
        no_empty_bags(m),
        o.in_range(),
        n.in_range(),
        o.layer == n.layer,
        is_axis_step(n.x - o.x, n.y - o.y) || is_diagonal_step(n.x - o.x, n.y - o.y),
        forall|k: TileKey| o.near(k) ==> #[trigger] bag(m, k).count(a) > 0,
    ensures
        apply_change(m, TileChanged { agent: a, old: Some(o), new: Some(n) }) == relocate(m, a, o, n),
{
    let dx = n.x - o.x;
    let dy = n.y - o.y;
    let (tr, ld) = if is_axis_step(dx, dy) {
        lemma_axis_edges(o, n, dx, dy);
        (trailing_edge(o, dx, dy), leading_edge(n, dx, dy))
    } else {
        lemma_diagonal_corners(o, n, dx, dy);
        (trailing_corner(o, dx, dy), leading_corner(n, dx, dy))
    };
    let r = apply_change(m, TileChanged { agent: a, old: Some(o), new: Some(n) });
    assert(r == add_all(drop_all(m, a, tr), a, ld));
    let m1 = drop_all(m, a, tr);
    lemma_drop_all_counts(m, a, tr);
    lemma_add_all_counts(m1, a, ld);
    lemma_relocate_counts(m, a, o, n);
    assert forall|k: TileKey, b: u64| bag(r, k).count(b) == bag(relocate(m, a, o, n), k).count(b) by {
        assert(bag(m1, k).count(b) == (if b == a && lists(tr, k) && bag(m, k).count(b) > 0 {
            bag(m, k).count(b) - 1
        } else {
            bag(m, k).count(b) as int
        }));
        assert(bag(r, k).count(b) == bag(m1, k).count(b) + (if b == a && lists(ld, k) {
            1int
        } else {
            0int
        }));
        if b == a && o.near(k) {
            assert(bag(m, k).count(a) > 0);
        }
    }
    lemma_bags_ext(r, relocate(m, a, o, n));
}

/// Applying a change never leaves an empty bucket behind.
pub proof fn lemma_change_keeps_buckets_nonempty(m: Bags, e: TileChanged)
    requires
        no_empty_bags(m),
        change_in_range(e),
    ensures
        no_empty_bags(apply_change(m, e)),
{
    let a = e.agent;
    match (e.old, e.new) {
        (None, None) => {},
        (Some(o), None) => {
            lemma_ball_keys(o);
            lemma_drop_all_counts(m, a, o.ball());
        },
        (None, Some(n)) => {
            lemma_ball_keys(n);
            lemma_add_all_counts(m, a, n.ball());
        },
        (Some(o), Some(n)) => {
            let dx = n.x - o.x;
            let dy = n.y - o.y;
            lemma_relocate_counts(m, a, o, n);
            if o.layer == n.layer && is_axis_step(dx, dy) {
                lemma_axis_edges(o, n, dx, dy);
                lemma_drop_all_counts(m, a, trailing_edge(o, dx, dy));
                lemma_add_all_counts(drop_all(m, a, trailing_edge(o, dx, dy)), a, leading_edge(n, dx, dy));
            } else if o.layer == n.layer && is_diagonal_step(dx, dy) {
                lemma_diagonal_corners(o, n, dx, dy);
                lemma_drop_all_counts(m, a, trailing_corner(o, dx, dy));
                lemma_add_all_counts(
                    drop_all(m, a, trailing_corner(o, dx, dy)),
                    a,
                    leading_corner(n, dx, dy),
                );
            }
        },
    }
}

/// A change moves its agent's footprint from the old tile's neighbourhood to
/// the new one's, and leaves every other agent's counts as they were.
pub proof fn lemma_change_keeps_footprint(m: Bags, e: TileChanged)
    requires
        no_empty_bags(m),
        change_in_range(e),
        footprint(m, e.agent, e.old),
    ensures
        footprint(apply_change(m, e), e.agent, e.new),
        forall|k: TileKey, b: u64| b != e.agent ==> #[trigger] bag(apply_change(m, e), k).count(b)
            == bag(m, k).count(b),
{
    let a = e.agent;
    let r = apply_change(m, e);
    match (e.old, e.new) {
        (None, None) => {},
        (Some(o), None) => {
            lemma_ball_keys(o);
            lemma_drop_all_counts(m, a, o.ball());
            assert forall|k: TileKey| #[trigger] bag(r, k).count(a) == 0int by {
                assert(bag(m, k).count(a) == (if o.near(k) { 1int } else { 0int }));
            }
        },
        (None, Some(n)) => {
            lemma_ball_keys(n);
            lemma_add_all_counts(m, a, n.ball());
            assert forall|k: TileKey| #[trigger] bag(r, k).count(a) == (if n.near(k) {
                1int
            } else {
                0int
            }) by {
                assert(bag(m, k).count(a) == 0int);
            }
        },
        (Some(o), Some(n)) => {
            let dx = n.x - o.x;
            let dy = n.y - o.y;
            if o.layer == n.layer && dx == 0 && dy == 0 {
                assert(o == n);
            } else {
                if o.layer == n.layer && (is_axis_step(dx, dy) || is_diagonal_step(dx, dy)) {
                    assert forall|k: TileKey| o.near(k) implies #[trigger] bag(m, k).count(a) > 0 by {
                        assert(bag(m, k).count(a) == 1int);
                    }
                    lemma_step_matches_full_move(m, a, o, n);
                }
                assert(r == relocate(m, a, o, n));
                lemma_relocate_counts(m, a, o, n);
                assert forall|k: TileKey| #[trigger] bag(r, k).count(a) == (if n.near(k) {
                    1int
                } else {
                    0int
                }) by {
                    assert(bag(m, k).count(a) == (if o.near(k) { 1int } else { 0int }));
                }
            }
        },
    }
}

/// The tile an agent is recorded in, if any.
pub open spec fn tile_of(tiles: Map<u64, Tile>, a: u64) -> Option<Tile> {
    if tiles.contains_key(a) {
        Some(tiles[a])
    } else {
        None
    }
}

/// The recorded tiles after a change.
pub open spec fn track(tiles: Map<u64, Tile>, e: TileChanged) -> Map<u64, Tile> {
    match e.new {
        Some(n) => tiles.insert(e.agent, n),
        None => tiles.remove(e.agent),
    }
}

/// The recorded tiles after a run of changes.
pub open spec fn track_all(tiles: Map<u64, Tile>, es: Seq<TileChanged>) -> Map<u64, Tile>
    decreases es.len(),
{
    if es.len() == 0 {
        tiles
    } else {
        track(track_all(tiles, es.drop_last()), es.last())
    }
}

/// Each change starts from the tile that its agent was recorded in when it
/// came, as changes made from a per-agent tile cache do.
pub open spec fn changes_follow(tiles: Map<u64, Tile>, es: Seq<TileChanged>) -> bool {
    forall|i: int| 0 <= i < es.len() ==> (#[trigger] es[i]).old == tile_of(
        track_all(tiles, es.take(i)),
        es[i].agent,
    )
}

/// Every agent has the footprint of its recorded tile.
pub open spec fn all_footprints(m: Bags, tiles: Map<u64, Tile>) -> bool {
    forall|a: u64| #[trigger] footprint(m, a, tile_of(tiles, a))
}

/// Applying changes made from the agents' recorded tiles keeps every agent
/// listed exactly in the neighbourhood of its tile, and no bucket empty.
pub proof fn lemma_changes_keep_footprints(m: Bags, tiles: Map<u64, Tile>, es: Seq<TileChanged>)
    requires
        no_empty_bags(m),
        all_footprints(m, tiles),
        forall|i: int| 0 <= i < es.len() ==> change_in_range(#[trigger] es[i]),
        changes_follow(tiles, es),
    ensures
        no_empty_bags(apply_changes(m, es)),
        all_footprints(apply_changes(m, es), track_all(tiles, es)),
    decreases es.len(),
{
    if es.len() > 0 {
        let init = es.drop_last();
        let e = es.last();
        assert forall|i: int| 0 <= i < init.len() implies (#[trigger] init[i]).old == tile_of(
            track_all(tiles, init.take(i)),
            init[i].agent,
        ) by {
            assert(init.take(i) =~= es.take(i));
            assert(es[i] == init[i]);
        }
        assert forall|i: int| 0 <= i < init.len() implies change_in_range(#[trigger] init[i]) by {
            assert(es[i] == init[i]);
        }
        lemma_changes_keep_footprints(m, tiles, init);
        let m0 = apply_changes(m, init);
        let t0 = track_all(tiles, init);
        assert(es.take(es.len() - 1) =~= init);
        assert(e.old == tile_of(t0, e.agent));
        assert(change_in_range(es[es.len() - 1]));
        assert(footprint(m0, e.agent, tile_of(t0, e.agent)));
        lemma_change_keeps_buckets_nonempty(m0, e);
        lemma_change_keeps_footprint(m0, e);
        let r = apply_change(m0, e);
        let t1 = track(t0, e);
        assert forall|a: u64| #[trigger] footprint(r, a, tile_of(t1, a)) by {
            if a != e.agent {
                assert(tile_of(t1, a) == tile_of(t0, a));
                assert(footprint(m0, a, tile_of(t0, a)));
                assert forall|k: TileKey| #[trigger] bag(r, k).count(a) == bag(m0, k).count(a) by {}
            } else {
                assert(tile_of(t1, a) == e.new);
            }
        }
    }
}

/// A change reported from an agent's tile cache starts from the tile the agent
/// is recorded in, and afterwards the agent is recorded in its current tile;
/// where nothing is reported, it was recorded there already.
pub proof fn lemma_reported_change_follows(
    tiles: Map<u64, Tile>,
    agent: u64,
    cached: Option<Tile>,
    current: Option<Tile>,
)
    requires
        tile_of(tiles, agent) == cached,
    ensures
        reported_change(agent, cached, current) matches Some(e) ==> e.old == tile_of(tiles, e.agent)
            && tile_of(track(tiles, e), agent) == current,
        reported_change(agent, cached, current) is None ==> tile_of(tiles, agent) == current,
{
}

} // verus!
