use vstd::prelude::*;
use crate::store::TileKey;

verus! {

/// A side of a tile, by compass direction: north is towards larger `y`, east
/// towards larger `x`.
#[derive(Clone, Copy, Debug, PartialEq, Eq, Structural)]
pub enum Side {
    North,
    South,
    East,
    West,
}

/// An integer cell of a layer's grid. Tiles of different layers never alias.
#[derive(Clone, Copy, Debug, PartialEq, Eq, Hash, Structural)]
pub struct Tile {
    /// The layer the tile belongs to.
    pub layer: u64,
    pub x: i32,
    pub y: i32,
}

impl Tile {
    /// The key under which the tile is stored in a map.
    pub open spec fn key(self) -> TileKey {
        (self.layer, self.x, self.y)
    }

    /// Every tile of the 3x3 neighbourhood has coordinates that fit in `i32`.
    pub open spec fn in_range(self) -> bool {
        i32::MIN < self.x < i32::MAX && i32::MIN < self.y < i32::MAX
    }

    /// The tile `dx` columns and `dy` rows away, in the same layer.
    pub open spec fn offset(self, dx: int, dy: int) -> Tile {
        Tile { layer: self.layer, x: (self.x + dx) as i32, y: (self.y + dy) as i32 }
    }

    /// The 3x3 neighbourhood, row by row from the lowest row and column.
    pub open spec fn ball(self) -> Seq<Tile> {
        seq![
            self.offset(-1, -1), self.offset(0, -1), self.offset(1, -1),
            self.offset(-1, 0), self.offset(0, 0), self.offset(1, 0),
            self.offset(-1, 1), self.offset(0, 1), self.offset(1, 1),
        ]
    }

    /// `k` lies within Chebyshev distance 1 of this tile, in its layer.
    pub open spec fn near(self, k: TileKey) -> bool {
        &&& k.0 == self.layer
        &&& -1 <= k.1 - self.x <= 1
        &&& -1 <= k.2 - self.y <= 1
    }

    pub fn new(layer: u64, x: i32, y: i32) -> (r: Tile)
        ensures
            r == (Tile { layer, x, y }),
    {
        Tile { layer, x, y }
    }

    pub fn layer(&self) -> (r: u64)
        ensures
            r == self.layer,
    {
        self.layer
    }

    pub fn x(&self) -> (r: i32)
        ensures
            r == self.x,
    {
        self.x
    }

    pub fn y(&self) -> (r: i32)
        ensures
            r == self.y,
    {
        self.y
    }

    /// Whether every tile of the 3x3 neighbourhood has coordinates that fit in
    /// `i32`.
    pub fn is_in_range(&self) -> (r: bool)
        ensures
            r == self.in_range(),
    {
        i32::MIN < self.x && self.x < i32::MAX && i32::MIN < self.y && self.y < i32::MAX
    }

    pub(crate) fn as_key(&self) -> (r: TileKey)
        ensures
            r == self.key(),
    {
        (self.layer, self.x, self.y)
    }

    /// The nine tiles within Chebyshev distance 1, this one included.
    pub fn neighborhood(&self) -> (r: [Tile; 9])
        requires
            self.in_range(),
        ensures
            r@ == self.ball(),
    {
        let layer = self.layer;
        let (x, y) = (self.x, self.y);
        let r = [
            Tile::new(layer, x - 1, y - 1),
            Tile::new(layer, x, y - 1),
            Tile::new(layer, x + 1, y - 1),
            Tile::new(layer, x - 1, y),
            Tile::new(layer, x, y),
            Tile::new(layer, x + 1, y),
            Tile::new(layer, x - 1, y + 1),
            Tile::new(layer, x, y + 1),
            Tile::new(layer, x + 1, y + 1),
        ];
        assert(r@ =~= self.ball());
        r
    }

    /// The neighbour across `side`.
    pub open spec fn across(self, side: Side) -> Tile {
        match side {
            Side::North => self.offset(0, 1),
            Side::South => self.offset(0, -1),
            Side::East => self.offset(1, 0),
            Side::West => self.offset(-1, 0),
        }
    }

    /// The edge shared with the neighbour across `side`, in tiles, measured
    /// along the direction of `side`: a wall there stands at this value times
    /// the tile size.
    pub open spec fn edge(self, side: Side) -> int {
        match side {
            Side::North => self.y + 1,
            Side::South => -self.y,
            Side::East => self.x + 1,
            Side::West => -self.x,
        }
    }

    /// The walls around this tile: for each side whose neighbour is solid,
    /// taken in the order north, south, east, west, its edge and the side.
    pub open spec fn walls(self, solid: [bool; 4]) -> Seq<(i32, Side)> {
        (if solid[0] { seq![(self.edge(Side::North) as i32, Side::North)] } else { seq![] }) + (if solid[1] {
            seq![(self.edge(Side::South) as i32, Side::South)]
        } else {
            seq![]
        }) + (if solid[2] { seq![(self.edge(Side::East) as i32, Side::East)] } else { seq![] }) + (
        if solid[3] {
            seq![(self.edge(Side::West) as i32, Side::West)]
        } else {
            seq![]
        })
    }

    /// The neighbour across `side`.
    pub fn adjacent(&self, side: Side) -> (r: Tile)
        requires
            self.in_range(),
        ensures
            r == self.across(side),
    {
        match side {
            Side::North => Tile::new(self.layer, self.x, self.y + 1),
            Side::South => Tile::new(self.layer, self.x, self.y - 1),
            Side::East => Tile::new(self.layer, self.x + 1, self.y),
            Side::West => Tile::new(self.layer, self.x - 1, self.y),
        }
    }

    /// The walls to test an agent in this tile against: `solid` tells, for the
    /// neighbours to the north, south, east and west, whether each is solid.
    pub fn boundaries(&self, solid: [bool; 4]) -> (r: Vec<(i32, Side)>)
        requires
            self.in_range(),
        ensures
            r@ == self.walls(solid),
    {
        let mut r: Vec<(i32, Side)> = Vec::new();
        let ghost mut w: Seq<(i32, Side)> = seq![];
        if solid[0] {
            r.push((self.y + 1, Side::North));
            proof { w = w.push((self.edge(Side::North) as i32, Side::North)); }
        }
        if solid[1] {
            r.push((-self.y, Side::South));
            proof { w = w.push((self.edge(Side::South) as i32, Side::South)); }
        }
        if solid[2] {
            r.push((self.x + 1, Side::East));
            proof { w = w.push((self.edge(Side::East) as i32, Side::East)); }
        }
        if solid[3] {
            r.push((-self.x, Side::West));
            proof { w = w.push((self.edge(Side::West) as i32, Side::West)); }
        }
        assert(w =~= self.walls(solid));
        assert(r@ =~= w);
        r
    }
}

} // verus!
