use jostle::index::TileIndex;
use jostle::model::TileChanged;
use jostle::tile::Tile;

const LAYER: u64 = 1;
const AGENT: u64 = 2;

fn chebyshev_distance(a: (i32, i32), b: (i32, i32)) -> i32 {
    (a.0 - b.0).abs().max((a.1 - b.1).abs())
}

fn assert_neighborhood(index: &TileIndex, center: Tile, agent: u64) {
    for x in center.x() - 2..=center.x() + 2 {
        for y in center.y() - 2..=center.y() + 2 {
            let tile = Tile::new(center.layer(), x, y);
            let agents = index.get(tile);
            if chebyshev_distance((x, y), (center.x(), center.y())) > 1 {
                assert!(!agents.contains(&agent), "did not expect {:?} to contain agent", tile);
            } else {
                assert!(agents.contains(&agent), "expected {:?} to contain agent", tile);
                assert_eq!(
                    agents.iter().filter(|&&a| a == agent).count(),
                    1,
                    "agent duplicated in {:?}",
                    tile
                );
            }
        }
    }
}

fn assert_move(old: (i32, i32), new: (i32, i32)) {
    let mut index = TileIndex::default();
    let old = Tile::new(LAYER, old.0, old.1);
    let new = Tile::new(LAYER, new.0, new.1);
    index.update(&TileChanged { agent: AGENT, old: None, new: Some(old) });
    index.update(&TileChanged { agent: AGENT, old: Some(old), new: Some(new) });

    assert_neighborhood(&index, new, AGENT);
}

#[test]
fn update_insert_neighborhood() {
    let mut index = TileIndex::default();
    let center = Tile::new(LAYER, 0, 0);
    index.update(&TileChanged { agent: AGENT, old: None, new: Some(center) });

    assert_neighborhood(&index, center, AGENT);
}

#[test]
fn update_remove_neighborhood() {
    let mut index = TileIndex::default();
    let center = Tile::new(LAYER, 0, 0);
    index.update(&TileChanged { agent: AGENT, old: None, new: Some(center) });
    index.update(&TileChanged { agent: AGENT, old: Some(center), new: None });

    for tile in center.neighborhood() {
        assert!(!index.get(tile).contains(&AGENT), "expected {:?} to be cleared", tile);
    }
}

#[test]
fn update_same_tile() {
    let mut index = TileIndex::default();
    let center = Tile::new(LAYER, 2, -1);
    index.update(&TileChanged { agent: AGENT, old: None, new: Some(center) });
    index.update(&TileChanged { agent: AGENT, old: Some(center), new: Some(center) });

    assert_neighborhood(&index, center, AGENT);
}

#[test]
fn update_move_cardinal_e() {
    assert_move((0, 0), (1, 0));
}

#[test]
fn update_move_cardinal_w() {
    assert_move((0, 0), (-1, 0));
}

#[test]
fn update_move_cardinal_n() {
    assert_move((0, 0), (0, 1));
}

#[test]
fn update_move_cardinal_s() {
    assert_move((0, 0), (0, -1));
}

#[test]
fn update_move_diagonal_ne() {
    assert_move((0, 0), (1, 1));
}

#[test]
fn update_move_diagonal_nw() {
    assert_move((0, 0), (-1, 1));
}

#[test]
fn update_move_diagonal_se() {
    assert_move((0, 0), (1, -1));
}

#[test]
fn update_move_diagonal_sw() {
    assert_move((0, 0), (-1, -1));
}

#[test]
fn update_jump_cardinal() {
    assert_move((0, 0), (2, 0));
}

#[test]
fn update_jump_diagonal() {
    assert_move((0, 0), (3, -2));
}

#[test]
fn update_change_layer() {
    let layer1 = 1;
    let layer2 = 2;
    let agent = 3;

    let mut index = TileIndex::default();
    let old = Tile::new(layer1, 0, 0);
    let new = Tile::new(layer2, 4, 1);
    index.update(&TileChanged { agent, old: None, new: Some(old) });
    index.update(&TileChanged { agent, old: Some(old), new: Some(new) });

    for tile in old.neighborhood() {
        assert!(!index.get(tile).contains(&agent), "expected {:?} to be cleared (layer1)", tile);
    }

    assert_neighborhood(&index, new, agent);
}

#[test]
fn empty_index_has_no_agents() {
    let index = TileIndex::new();
    assert!(index.get(Tile::new(LAYER, 0, 0)).is_empty());
}

#[test]
fn round_trip_restores_buckets() {
    let mut index = TileIndex::default();
    let other = 9;
    index.update(&TileChanged { agent: other, old: None, new: Some(Tile::new(LAYER, 1, 1)) });
    let before: Vec<Vec<u64>> = (-1..=3)
        .flat_map(|x| (-1..=3).map(move |y| (x, y)))
        .map(|(x, y)| index.get(Tile::new(LAYER, x, y)).to_vec())
        .collect();

    let center = Tile::new(LAYER, 0, 0);
    index.update(&TileChanged { agent: AGENT, old: None, new: Some(center) });
    assert_eq!(index.get(Tile::new(LAYER, 1, 1)), &[other, AGENT]);
    index.update(&TileChanged { agent: AGENT, old: Some(center), new: None });

    let after: Vec<Vec<u64>> = (-1..=3)
        .flat_map(|x| (-1..=3).map(move |y| (x, y)))
        .map(|(x, y)| index.get(Tile::new(LAYER, x, y)).to_vec())
        .collect();
    assert_eq!(before, after);
    assert!(index.get(Tile::new(LAYER, -1, -1)).is_empty());
}

fn sorted_buckets(index: &TileIndex, layer: u64) -> Vec<Vec<u64>> {
    let mut out = Vec::new();
    for x in -4..=4 {
        for y in -4..=4 {
            let mut agents = index.get(Tile::new(layer, x, y)).to_vec();
            agents.sort();
            out.push(agents);
        }
    }
    out
}

#[test]
fn step_matches_full_remove_and_insert() {
    for (dx, dy) in [(1, 0), (-1, 0), (0, 1), (0, -1), (1, 1), (-1, 1), (1, -1), (-1, -1)] {
        let from = Tile::new(LAYER, 0, 0);
        let to = Tile::new(LAYER, dx, dy);

        let mut stepped = TileIndex::default();
        let mut full = TileIndex::default();
        for index in [&mut stepped, &mut full] {
            index.update(&TileChanged { agent: 7, old: None, new: Some(Tile::new(LAYER, 1, 0)) });
            index.update(&TileChanged { agent: AGENT, old: None, new: Some(from) });
        }
        stepped.update(&TileChanged { agent: AGENT, old: Some(from), new: Some(to) });
        full.update(&TileChanged { agent: AGENT, old: Some(from), new: None });
        full.update(&TileChanged { agent: AGENT, old: None, new: Some(to) });

        assert_eq!(sorted_buckets(&stepped, LAYER), sorted_buckets(&full, LAYER));
    }
}

#[test]
fn update_all_applies_in_order() {
    let mut index = TileIndex::default();
    let a = Tile::new(LAYER, 0, 0);
    let b = Tile::new(LAYER, 1, 0);
    let c = Tile::new(LAYER, 5, 5);
    index.update_all(&[
        TileChanged { agent: AGENT, old: None, new: Some(a) },
        TileChanged { agent: AGENT, old: Some(a), new: Some(b) },
        TileChanged { agent: AGENT, old: Some(b), new: Some(c) },
    ]);
    assert_neighborhood(&index, c, AGENT);
    assert!(index.get(a).is_empty());
    assert!(index.get(b).is_empty());
}

#[test]
fn neighborhood_lists_nine_tiles_in_rows() {
    let tiles = Tile::new(LAYER, 3, -2).neighborhood();
    let coords: Vec<(i32, i32)> = tiles.iter().map(|t| (t.x(), t.y())).collect();
    assert_eq!(
        coords,
        vec![(2, -3), (3, -3), (4, -3), (2, -2), (3, -2), (4, -2), (2, -1), (3, -1), (4, -1)]
    );
    assert!(tiles.iter().all(|t| t.layer() == LAYER));
}

#[test]
fn tiles_of_different_layers_do_not_alias() {
    let mut index = TileIndex::default();
    index.update(&TileChanged { agent: AGENT, old: None, new: Some(Tile::new(1, 0, 0)) });
    assert!(index.get(Tile::new(2, 0, 0)).is_empty());
    assert_eq!(index.get(Tile::new(1, 0, 0)), &[AGENT]);
}
