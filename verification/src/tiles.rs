use vstd::prelude::*;
use crate::math::Vector2Int;

verus! {

/// What stands on a tile.
#[derive(Clone, Copy, Debug, PartialEq, Eq, Structural)]
pub enum TileType {
    Empty,
    Tree,
}

impl Default for TileType {
    fn default() -> (r: Self)
        ensures
            r == TileType::Empty,
    {
        TileType::Empty
    }
}

/// One cell of the world: whether it can be walked on, and how it is drawn.
#[derive(Debug)]
pub struct Tile {
    pub walkable: bool,
    pub texture_name: String,
    pub tile_type: TileType,
}

impl Default for Tile {
    fn default() -> (r: Self)
        ensures
            !r.walkable,
            r.texture_name@ == Seq::<char>::empty(),
            r.tile_type == TileType::Empty,
    {
        Tile { walkable: false, texture_name: String::new(), tile_type: TileType::Empty }
    }
}

impl Clone for Tile {
    fn clone(&self) -> (r: Self)
        ensures
            r == *self,
    {
        Tile {
            walkable: self.walkable,
            texture_name: self.texture_name.clone(),
            tile_type: self.tile_type,
        }
    }
}

/// A table of tiles keyed by grid cell, kept in a `hashbrown::HashMap` whose
/// keys are the cells' two coordinates.
#[verifier::external_body]
pub struct TileMap {
    cells: hashbrown::HashMap<(i32, i32), Tile>,
}

/// The tiles that a table holds, by cell.
pub uninterp spec fn tile_entries(m: TileMap) -> Map<Vector2Int, Tile>;

impl View for TileMap {
    type V = Map<Vector2Int, Tile>;

    open spec fn view(&self) -> Map<Vector2Int, Tile> {
        tile_entries(*self)
    }
}

impl TileMap {
    /// `hashbrown::HashMap::new`: a table that holds nothing.
    #[verifier::external_body]
    fn raw_new() -> (r: TileMap)
        ensures
            tile_entries(r) == no_tiles(),
    {
        TileMap { cells: hashbrown::HashMap::new() }
    }

    /// `hashbrown::HashMap::insert`: the tile is stored under the cell, taking
    /// the place of the one stored there before, which is handed back; every
    /// other cell keeps its tile.
    #[verifier::external_body]
    fn raw_insert(&mut self, position: Vector2Int, tile: Tile) -> (r: Option<Tile>)
        ensures
            tile_entries(*final(self)) == tile_entries(*old(self)).insert(position, tile),
            r == tile_entries(*old(self)).get(position),
    {
        self.cells.insert((position.x, position.y), tile)
    }

    /// `hashbrown::HashMap::get`: the tile stored under the cell, if there is one.
    #[verifier::external_body]
    fn raw_get(&self, position: Vector2Int) -> (r: Option<&Tile>)
        ensures
            r.is_some() == tile_entries(*self).contains_key(position),
            r matches Some(tile) ==> *tile == tile_entries(*self)[position],
    {
        self.cells.get(&(position.x, position.y))
    }

    /// `hashbrown::HashMap::len`: the number of cells that hold a tile, which
    /// is finite.
    #[verifier::external_body]
    fn raw_len(&self) -> (r: usize)
        ensures
            holds_exactly(tile_entries(*self), r as nat),
    {
        self.cells.len()
    }

    /// A table that holds nothing.
    pub fn new() -> (r: TileMap)
        ensures
            r@ == no_tiles(),
    {
        TileMap::raw_new()
    }

    /// Stores `tile` under `position` and hands back the tile that was stored
    /// there before, if there was one. Every other cell keeps its tile.
    pub fn insert(&mut self, position: Vector2Int, tile: Tile) -> (r: Option<Tile>)
        ensures
            final(self)@ == old(self)@.insert(position, tile),
            r == old(self)@.get(position),
    {
        self.raw_insert(position, tile)
    }

    /// The tile stored under `position`, if there is one.
    pub fn get(&self, position: Vector2Int) -> (r: Option<&Tile>)
        ensures
            r.is_some() == self@.contains_key(position),
            r matches Some(tile) ==> *tile == self@[position],
    {
        self.raw_get(position)
    }

    /// The number of cells that hold a tile.
    pub fn len(&self) -> (r: usize)
        ensures
            self@.dom().finite(),
            r == self@.dom().len(),
    {
        self.raw_len()
    }

    /// Whether a tile is stored under the cell.
    pub fn contains_key(&self, position: Vector2Int) -> (r: bool)
        ensures
            r == self@.contains_key(position),
    {
        self.get(position).is_some()
    }

    /// Whether the table holds nothing.
    pub fn is_empty(&self) -> (r: bool)
        ensures
            r == (self@ == no_tiles()),
    {
        let n = self.len();
        proof {
            if n == 0 {
                assert(self@.dom() =~= Set::<Vector2Int>::empty());
                assert(self@ =~= no_tiles());
            }
        }
        n == 0
    }

    /// Whether the cell holds a tile that can be walked on.
    pub fn is_walkable(&self, position: Vector2Int) -> (r: bool)
        ensures
            r == walkable(self@, position),
    {
        match self.get(position) {
            Some(tile) => tile.walkable,
            None => false,
        }
    }
}

/// The table that holds nothing.
pub open spec fn no_tiles() -> Map<Vector2Int, Tile> {
    Map::empty()
}

/// A table has finitely many cells, `count` of them.
pub open spec fn holds_exactly(tiles: Map<Vector2Int, Tile>, count: nat) -> bool {
    tiles.dom().finite() && tiles.dom().len() == count
}

/// A cell holds a tile, and that tile can be walked on.
pub open spec fn walkable(tiles: Map<Vector2Int, Tile>, position: Vector2Int) -> bool {
    tiles.contains_key(position) && tiles[position].walkable
}

} // verus!
