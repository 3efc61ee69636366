use vstd::prelude::*;
use vstd::string::*;
use crate::math::{abs, div_i32, div_toward_zero, Vector2Int};
use crate::random::random_in_range;
use crate::components::Entity;
use crate::queries::{get_entity_grid_position, grid_position_of, is_placed};
use crate::tiles::{walkable, Tile, TileMap, TileType};
use crate::world::{lemma_select_step, select, EntityView, World};

verus! {

/// Tiles along each side of a chunk.
pub const MAX_CHUNK_SIZE: i32 = 40;

/// The chunk that a cell belongs to: each coordinate divided by the chunk
/// size, rounded toward zero.
pub open spec fn spec_chunk_of(position: Vector2Int) -> Vector2Int {
    Vector2Int {
        x: div_toward_zero(position.x as int, MAX_CHUNK_SIZE as int) as i32,
        y: div_toward_zero(position.y as int, MAX_CHUNK_SIZE as int) as i32,
    }
}

/// The chunk that a cell belongs to.
#[verifier::when_used_as_spec(spec_chunk_of)]
pub fn chunk_of(position: Vector2Int) -> (r: Vector2Int)
    ensures
        r == spec_chunk_of(position),
{
    let mut chunk = Vector2Int::new(0, 0);
    if position.x != 0 {
        chunk.x = div_i32(position.x, MAX_CHUNK_SIZE);
    }
    if position.y != 0 {
        chunk.y = div_i32(position.y, MAX_CHUNK_SIZE);
    }
    chunk
}

/// The cells of a chunk all lie on the grid.
pub open spec fn chunk_fits(chunk: Vector2Int) -> bool {
    &&& i32::MIN <= chunk.x * MAX_CHUNK_SIZE
    &&& chunk.x * MAX_CHUNK_SIZE + MAX_CHUNK_SIZE - 1 <= i32::MAX
    &&& i32::MIN <= chunk.y * MAX_CHUNK_SIZE
    &&& chunk.y * MAX_CHUNK_SIZE + MAX_CHUNK_SIZE - 1 <= i32::MAX
}

/// A cell lies in the square of cells that a chunk covers.
pub open spec fn in_footprint(chunk: Vector2Int, p: Vector2Int) -> bool {
    &&& chunk.x * MAX_CHUNK_SIZE <= p.x < chunk.x * MAX_CHUNK_SIZE + MAX_CHUNK_SIZE
    &&& chunk.y * MAX_CHUNK_SIZE <= p.y < chunk.y * MAX_CHUNK_SIZE + MAX_CHUNK_SIZE
}

/// The cells that a chunk covers.
pub open spec fn footprint(chunk: Vector2Int) -> Set<Vector2Int> {
    Set::new(|p: Vector2Int| in_footprint(chunk, p))
}

/// A cell lies within `range` of `origin` along both axes.
pub open spec fn in_range(origin: Vector2Int, range: int, p: Vector2Int) -> bool {
    abs(p.x - origin.x) <= range && abs(p.y - origin.y) <= range
}

/// The cells within `range` of `origin` along both axes.
pub open spec fn square(origin: Vector2Int, range: int) -> Set<Vector2Int> {
    Set::new(|p: Vector2Int| in_range(origin, range, p))
}

/// The name of the texture that a draw of the generator stands for: grass for
/// 0 and 1, a tree for 2, bare ground for the rest.
pub open spec fn texture_for_roll(value: int) -> Seq<char> {
    if value == 0 || value == 1 {
        "grass"@
    } else if value == 2 {
        "tree"@
    } else {
        "dot"@
    }
}

/// `tile` is the tile that a draw of the generator stands for. Only a tree
/// cannot be walked on.
pub open spec fn is_roll_tile(value: int, tile: Tile) -> bool {
    &&& tile.texture_name@ == texture_for_roll(value)
    &&& tile.walkable == (value != 2)
    &&& tile.tile_type == (if value == 2 {
        TileType::Tree
    } else {
        TileType::Empty
    })
}

/// `tile` is one of the tiles that generation can give.
pub open spec fn is_generated_tile(tile: Tile) -> bool {
    exists|value: int| 0 <= value < 10 && is_roll_tile(value, tile)
}

/// The tile that a draw of the generator stands for.
pub fn tile_for_roll(value: i32) -> (tile: Tile)
    ensures
        is_roll_tile(value as int, tile),
{
    if value == 0 || value == 1 {
        Tile { walkable: true, texture_name: String::from_str("grass"), tile_type: TileType::Empty }
    } else if value == 2 {
        Tile { walkable: false, texture_name: String::from_str("tree"), tile_type: TileType::Tree }
    } else {
        Tile { walkable: true, texture_name: String::from_str("dot"), tile_type: TileType::Empty }
    }
}

/// A square of tiles, keyed by their cells on the grid, and its place among
/// the chunks.
pub struct MapChunk {
    pub position: Vector2Int,
    pub tiles: TileMap,
}

/// The cells of `chunk` that generation has reached when it stands at column
/// `x`, row `y`.
spec fn generated_so_far(chunk: Vector2Int, x: int, y: int, p: Vector2Int) -> bool {
    &&& in_footprint(chunk, p)
    &&& (p.x - chunk.x * MAX_CHUNK_SIZE < x || (p.x - chunk.x * MAX_CHUNK_SIZE == x && p.y - chunk.y
        * MAX_CHUNK_SIZE < y))
}

/// The cells of a table that a range query has reached when it stands at
/// column `x`, row `y`.
spec fn gathered_so_far(origin: Vector2Int, range: int, x: int, y: int, p: Vector2Int) -> bool {
    &&& in_range(origin, range, p)
    &&& (p.x < x || (p.x == x && p.y < y))
}

impl MapChunk {
    /// A chunk at `position` with a tile on each of its cells, each tile
    /// drawn at random: about two in ten grass, one in ten a tree, the rest
    /// bare ground.
    pub fn generate(position: Vector2Int) -> (chunk: MapChunk)
        requires
            chunk_fits(position),
        ensures
            chunk.position == position,
            chunk.tiles@.dom() == footprint(position),
            forall|p: Vector2Int| #[trigger]
                chunk.tiles@.contains_key(p) ==> is_generated_tile(chunk.tiles@[p]),
    {
        let mut tiles = TileMap::new();
        let base_x: i32 = position.x * MAX_CHUNK_SIZE;
        let base_y: i32 = position.y * MAX_CHUNK_SIZE;
        let mut x: i32 = 0;
        while x < MAX_CHUNK_SIZE
            invariant
                chunk_fits(position),
                0 <= x <= MAX_CHUNK_SIZE,
                base_x == position.x * MAX_CHUNK_SIZE,
                base_y == position.y * MAX_CHUNK_SIZE,
                forall|p: Vector2Int| #[trigger]
                    tiles@.contains_key(p) <==> generated_so_far(position, x as int, 0, p),
                forall|p: Vector2Int| #[trigger]
                    tiles@.contains_key(p) ==> is_generated_tile(tiles@[p]),
            decreases MAX_CHUNK_SIZE - x,
        {
            let mut y: i32 = 0;
            while y < MAX_CHUNK_SIZE
                invariant
                    chunk_fits(position),
                    0 <= x < MAX_CHUNK_SIZE,
                    0 <= y <= MAX_CHUNK_SIZE,
                    base_x == position.x * MAX_CHUNK_SIZE,
                    base_y == position.y * MAX_CHUNK_SIZE,
                    forall|p: Vector2Int| #[trigger]
                        tiles@.contains_key(p) <==> generated_so_far(
                            position,
                            x as int,
                            y as int,
                            p,
                        ),
                    forall|p: Vector2Int| #[trigger]
                        tiles@.contains_key(p) ==> is_generated_tile(tiles@[p]),
                decreases MAX_CHUNK_SIZE - y,
            {
                let value = random_in_range(0, 10);
                let tile = tile_for_roll(value);
                let cell = Vector2Int::new(base_x + x, base_y + y);
                tiles.insert(cell, tile);
                y += 1;
            }
            x += 1;
        }
        proof {
            assert(tiles@.dom() =~= footprint(position));
        }
        MapChunk { position, tiles }
    }

    /// The tiles of the chunk that lie within `range` of
    /// `start_tile_position` along both axes.
    pub fn get_tiles_range_of(&self, start_tile_position: Vector2Int, range: i32) -> (r: TileMap)
        ensures
            r@ == self.tiles@.restrict(square(start_tile_position, range as int)),
    {
        let mut found = TileMap::new();
        if range < 0 {
            proof {
                assert(found@ =~= self.tiles@.restrict(square(start_tile_position, range as int)));
            }
            return found;
        }
        let origin = start_tile_position;
        let x_low: i64 = lowest(origin.x, range);
        let x_high: i64 = highest(origin.x, range);
        let y_low: i64 = lowest(origin.y, range);
        let y_high: i64 = highest(origin.y, range);
        let mut x: i64 = x_low;
        while x <= x_high
            invariant
                range >= 0,
                x_low == clamp_low(origin.x as int, range as int),
                x_high == clamp_high(origin.x as int, range as int),
                y_low == clamp_low(origin.y as int, range as int),
                y_high == clamp_high(origin.y as int, range as int),
                x_low <= x <= x_high + 1,
                forall|p: Vector2Int| #[trigger]
                    found@.contains_key(p) <==> self.tiles@.contains_key(p) && gathered_so_far(
                        origin,
                        range as int,
                        x as int,
                        y_low as int,
                        p,
                    ),
                forall|p: Vector2Int| #[trigger]
                    found@.contains_key(p) ==> found@[p] == self.tiles@[p],
            decreases x_high + 1 - x,
        {
            let mut y: i64 = y_low;
            while y <= y_high
                invariant
                    range >= 0,
                    x_low == clamp_low(origin.x as int, range as int),
                    x_high == clamp_high(origin.x as int, range as int),
                    y_low == clamp_low(origin.y as int, range as int),
                    y_high == clamp_high(origin.y as int, range as int),
                    x_low <= x <= x_high,
                    y_low <= y <= y_high + 1,
                    forall|p: Vector2Int| #[trigger]
                        found@.contains_key(p) <==> self.tiles@.contains_key(p) && gathered_so_far(
                            origin,
                            range as int,
                            x as int,
                            y as int,
                            p,
                        ),
                    forall|p: Vector2Int| #[trigger]
                        found@.contains_key(p) ==> found@[p] == self.tiles@[p],
                decreases y_high + 1 - y,
            {
                let cell = Vector2Int::new(x as i32, y as i32);
                match self.tiles.get(cell) {
                    Some(tile) => {
                        found.insert(cell, tile.clone());
                    },
                    None => {},
                }
                y += 1;
            }
            x += 1;
        }
        proof {
            assert(found@ =~= self.tiles@.restrict(square(origin, range as int)));
        }
        found
    }
}

/// The lowest coordinate of the grid within `range` of `centre`.
pub open spec fn clamp_low(centre: int, range: int) -> int {
    if centre - range < i32::MIN {
        i32::MIN as int
    } else {
        centre - range
    }
}

/// The highest coordinate of the grid within `range` of `centre`.
pub open spec fn clamp_high(centre: int, range: int) -> int {
    if centre + range > i32::MAX {
        i32::MAX as int
    } else {
        centre + range
    }
}

fn lowest(centre: i32, range: i32) -> (r: i64)
    requires
        range >= 0,
    ensures
        r == clamp_low(centre as int, range as int),
{
    let low: i64 = centre as i64 - range as i64;
    if low < i32::MIN as i64 {
        i32::MIN as i64
    } else {
        low
    }
}

fn highest(centre: i32, range: i32) -> (r: i64)
    requires
        range >= 0,
    ensures
        r == clamp_high(centre as int, range as int),
{
    let high: i64 = centre as i64 + range as i64;
    if high > i32::MAX as i64 {
        i32::MAX as i64
    } else {
        high
    }
}


/// The entity has a transform on a cell of the chunk `chunk`.
pub open spec fn stands_in_chunk(d: EntityView, chunk: Vector2Int) -> bool {
    d.transform matches Some(t) && chunk_of(t.grid_position) == chunk
}

/// `chunk` is a freshly generated chunk at `position`: it has a generated tile
/// on each cell that it covers and on no other.
pub open spec fn is_generated_chunk(chunk: MapChunk, position: Vector2Int) -> bool {
    &&& chunk.position == position
    &&& chunk.tiles@.dom() == footprint(position)
    &&& forall|p: Vector2Int| #[trigger]
        chunk.tiles@.contains_key(p) ==> is_generated_tile(chunk.tiles@[p])
}

/// Whether the cells of a chunk all lie on the grid.
pub fn chunk_is_in_bounds(chunk: Vector2Int) -> (r: bool)
    ensures
        r == chunk_fits(chunk),
{
    let low: i32 = i32::MIN / MAX_CHUNK_SIZE;
    let high: i32 = (i32::MAX - (MAX_CHUNK_SIZE - 1)) / MAX_CHUNK_SIZE;
    low <= chunk.x && chunk.x <= high && low <= chunk.y && chunk.y <= high
}

/// The chunks of a world by their place, kept in a `hashbrown::HashMap` whose
/// keys are the two coordinates of a chunk's place.
#[verifier::external_body]
pub struct ChunkTable {
    chunks: hashbrown::HashMap<(i32, i32), MapChunk>,
}

/// The chunks that a table holds, by place.
pub uninterp spec fn chunk_entries(table: ChunkTable) -> Map<Vector2Int, MapChunk>;

/// The table that holds no chunk.
pub open spec fn no_chunks() -> Map<Vector2Int, MapChunk> {
    Map::empty()
}

impl ChunkTable {
    /// `hashbrown::HashMap::new`: a table that holds nothing.
    #[verifier::external_body]
    fn raw_new() -> (r: ChunkTable)
        ensures
            chunk_entries(r) == no_chunks(),
    {
        ChunkTable { chunks: hashbrown::HashMap::new() }
    }

    /// `hashbrown::HashMap::insert`: the chunk is stored under the place,
    /// taking the place of the one stored there before, which is handed
    /// back; every other place keeps its chunk.
    #[verifier::external_body]
    fn raw_insert(&mut self, position: Vector2Int, chunk: MapChunk) -> (r: Option<MapChunk>)
        ensures
            chunk_entries(*final(self)) == chunk_entries(*old(self)).insert(position, chunk),
            r == chunk_entries(*old(self)).get(position),
    {
        self.chunks.insert((position.x, position.y), chunk)
    }

    /// `hashbrown::HashMap::get_mut`: the chunk stored under the place, if
    /// there is one, to be changed where it is. What the chunk is when the
    /// caller lets go of it is what the table then holds under the place;
    /// every other place keeps its chunk.
    #[verifier::external_body]
    fn raw_get_mut(&mut self, position: Vector2Int) -> (r: Option<&mut MapChunk>)
        ensures
            match r {
                Some(chunk) => chunk_entries(*old(self)).contains_key(position) && *chunk
                    == chunk_entries(*old(self))[position] && chunk_entries(*final(self))
                    == chunk_entries(*old(self)).insert(position, *final(chunk)),
                None => !chunk_entries(*old(self)).contains_key(position) && chunk_entries(
                    *final(self),
                ) == chunk_entries(*old(self)),
            },
    {
        self.chunks.get_mut(&(position.x, position.y))
    }

    /// `hashbrown::HashMap::get`: the chunk stored under the place, if there
    /// is one.
    #[verifier::external_body]
    fn raw_get(&self, position: Vector2Int) -> (r: Option<&MapChunk>)
        ensures
            r.is_some() == chunk_entries(*self).contains_key(position),
            r matches Some(chunk) ==> *chunk == chunk_entries(*self)[position],
    {
        self.chunks.get(&(position.x, position.y))
    }
}

/// The world: chunks of tiles, made as they are needed and never dropped, and
/// the place of the chunk that the camera shows.
pub struct WorldMap {
    chunks: ChunkTable,
    current_chunk: Vector2Int,
}

impl WorldMap {
    /// The current chunk exists, and each chunk knows its own place.
    pub closed spec fn wf(&self) -> bool {
        &&& chunk_entries(self.chunks).contains_key(self.current_chunk)
        &&& forall|c: Vector2Int| #[trigger]
            chunk_entries(self.chunks).contains_key(c) ==> chunk_entries(self.chunks)[c].position
                == c
    }

    /// The chunks of the world, by place.
    pub closed spec fn chunks(&self) -> Map<Vector2Int, MapChunk> {
        chunk_entries(self.chunks)
    }

    /// The place of the chunk that the camera shows.
    pub closed spec fn current(&self) -> Vector2Int {
        self.current_chunk
    }

    /// The tile on a cell: the one that the cell's chunk holds for it. There
    /// is none while the chunk has not been made.
    pub open spec fn tile_at(&self, position: Vector2Int) -> Option<Tile> {
        if self.chunks().contains_key(chunk_of(position)) {
            self.chunks()[chunk_of(position)].tiles@.get(position)
        } else {
            None
        }
    }

    /// The cell has a tile that can be walked on.
    pub open spec fn walkable_at(&self, position: Vector2Int) -> bool {
        self.tile_at(position) matches Some(tile) && tile.walkable
    }

    /// A world of one generated chunk, at the origin, which is the current one.
    pub fn new() -> (map: WorldMap)
        ensures
            map.wf(),
            map.current() == (Vector2Int { x: 0, y: 0 }),
            map.chunks().dom() == set![Vector2Int { x: 0, y: 0 }],
            is_generated_chunk(map.chunks()[Vector2Int { x: 0, y: 0 }], Vector2Int { x: 0, y: 0 }),
    {
        let origin = Vector2Int::new(0, 0);
        let mut chunks = ChunkTable::raw_new();
        chunks.raw_insert(origin, MapChunk::generate(origin));
        proof {
            assert(chunk_entries(chunks).dom() =~= set![origin]);
        }
        WorldMap { chunks, current_chunk: origin }
    }

    /// A world of the one chunk given, which is the current one.
    pub fn from_chunk(chunk: MapChunk) -> (map: WorldMap)
        ensures
            map.wf(),
            map.current() == chunk.position,
            map.chunks() == no_chunks().insert(chunk.position, chunk),
    {
        let place = chunk.position;
        let mut chunks = ChunkTable::raw_new();
        chunks.raw_insert(place, chunk);
        WorldMap { chunks, current_chunk: place }
    }

    /// Adds the chunk given at its place unless a chunk exists there already,
    /// and tells whether it did. No other chunk changes.
    pub fn add_chunk(&mut self, chunk: MapChunk) -> (r: bool)
        requires
            old(self).wf(),
        ensures
            final(self).wf(),
            final(self).current() == old(self).current(),
            r == !old(self).chunks().contains_key(chunk.position),
            r ==> final(self).chunks() == old(self).chunks().insert(chunk.position, chunk),
            !r ==> final(self).chunks() == old(self).chunks(),
    {
        if self.chunks.raw_get(chunk.position).is_none() {
            let place = chunk.position;
            self.chunks.raw_insert(place, chunk);
            true
        } else {
            false
        }
    }

    /// The chunk that the camera shows.
    pub fn get_current_chunk(&self) -> (chunk: &MapChunk)
        requires
            self.wf(),
        ensures
            self.chunks().contains_key(self.current()),
            *chunk == self.chunks()[self.current()],
    {
        match self.chunks.raw_get(self.current_chunk) {
            Some(chunk) => chunk,
            None => vstd::pervasive::unreached(),
        }
    }

    /// The chunk at `position` among the chunks, if it has been made.
    pub fn try_get_chunk(&self, position: &Vector2Int) -> (r: Option<&MapChunk>)
        ensures
            r.is_some() == self.chunks().contains_key(*position),
            r matches Some(chunk) ==> *chunk == self.chunks()[*position],
            self.wf() ==> (r matches Some(chunk) ==> chunk.position == *position),
    {
        self.chunks.raw_get(*position)
    }

    /// The chunk at `position` among the chunks, if it has been made, to be
    /// changed where it is. The world stays well formed as long as the chunk
    /// keeps its place.
    pub fn try_get_mut_chunk(&mut self, position: &Vector2Int) -> (r: Option<&mut MapChunk>)
        ensures
            final(self).current() == old(self).current(),
            match r {
                Some(chunk) => old(self).chunks().contains_key(*position) && *chunk == old(
                    self,
                ).chunks()[*position] && final(self).chunks() == old(self).chunks().insert(
                    *position,
                    *final(chunk),
                ) && (old(self).wf() ==> chunk.position == *position) && (old(self).wf()
                    && final(chunk).position == *position ==> final(self).wf()),
                None => !old(self).chunks().contains_key(*position) && final(self).chunks() == old(
                    self,
                ).chunks() && (old(self).wf() ==> final(self).wf()),
            },
    {
        self.chunks.raw_get_mut(*position)
    }

    /// The chunk that holds the cell `position`, to be changed where it is.
    /// The chunk must have been made. The world stays well formed as long as
    /// the chunk keeps its place.
    pub fn get_mut_chunk_from_position(&mut self, position: Vector2Int) -> (chunk: &mut MapChunk)
        requires
            old(self).chunks().contains_key(chunk_of(position)),
        ensures
            *chunk == old(self).chunks()[chunk_of(position)],
            final(self).chunks() == old(self).chunks().insert(chunk_of(position), *final(chunk)),
            final(self).current() == old(self).current(),
            old(self).wf() ==> chunk.position == chunk_of(position),
            old(self).wf() && final(chunk).position == chunk_of(position) ==> final(self).wf(),
    {
        match self.chunks.raw_get_mut(chunk_of(position)) {
            Some(chunk) => chunk,
            None => vstd::pervasive::unreached(),
        }
    }

    /// Makes the chunk at `position` among the chunks unless it exists
    /// already. No other chunk changes, and no chunk is ever dropped.
    pub fn add_new_chunk(&mut self, position: Vector2Int)
        requires
            old(self).wf(),
            old(self).chunks().contains_key(position) || chunk_fits(position),
        ensures
            final(self).wf(),
            final(self).current() == old(self).current(),
            old(self).chunks().contains_key(position) ==> final(self).chunks() == old(
                self,
            ).chunks(),
            !old(self).chunks().contains_key(position) ==> is_generated_chunk(
                final(self).chunks()[position],
                position,
            ) && final(self).chunks() == old(self).chunks().insert(
                position,
                final(self).chunks()[position],
            ),
    {
        if self.chunks.raw_get(position).is_none() {
            let chunk = MapChunk::generate(position);
            self.chunks.raw_insert(position, chunk);
        }
    }

    /// The chunk that holds the cell `position`. The chunk must have been made.
    pub fn get_chunk_from_position(&self, position: Vector2Int) -> (chunk: &MapChunk)
        requires
            self.chunks().contains_key(chunk_of(position)),
        ensures
            *chunk == self.chunks()[chunk_of(position)],
            self.wf() ==> chunk.position == chunk_of(position),
    {
        let place = chunk_of(position);
        match self.chunks.raw_get(place) {
            Some(chunk) => chunk,
            None => vstd::pervasive::unreached(),
        }
    }

    /// The tile on a cell of the world, whichever chunk holds it. There is
    /// none while the chunk has not been made.
    pub fn get_tile_from_grid_position(&self, position: Vector2Int) -> (r: Option<&Tile>)
        ensures
            r.is_some() == self.tile_at(position).is_some(),
            r matches Some(tile) ==> Some(*tile) == self.tile_at(position),
    {
        match self.chunks.raw_get(chunk_of(position)) {
            Some(chunk) => chunk.tiles.get(position),
            None => None,
        }
    }

    /// Whether a cell has a tile that can be walked on.
    pub fn is_tile_walkable(&self, position: Vector2Int) -> (r: bool)
        ensures
            r == self.walkable_at(position),
    {
        match self.get_tile_from_grid_position(position) {
            Some(tile) => tile.walkable,
            None => false,
        }
    }

    /// The entities that stand in the chunk at `chunk_pos` among the chunks,
    /// in the order of the world.
    pub fn get_all_entities_in_chunk(&self, world: &World, chunk_pos: Vector2Int) -> (r: Vec<Entity>)
        ensures
            r@ == select(world@, |d: EntityView| stands_in_chunk(d, chunk_pos)),
    {
        let target = chunk_pos;
        let ghost wanted = |d: EntityView| stands_in_chunk(d, chunk_pos);
        let mut found: Vec<Entity> = Vec::new();
        let mut i: usize = 0;
        proof {
            assert(world@.take(0) =~= Seq::<EntityView>::empty());
        }
        while i < world.len()
            invariant
                i <= world@.len(),
                target == chunk_pos,
                wanted == |d: EntityView| stands_in_chunk(d, chunk_pos),
                found@ == select(world@.take(i as int), wanted),
            decreases world@.len() - i,
        {
            proof {
                lemma_select_step(world@, wanted, i as int);
            }
            match world.transform(i) {
                Some(transform) => {
                    if chunk_of(transform.grid_position) == target {
                        found.push(world.entity(i));
                    }
                },
                None => {},
            }
            i += 1;
        }
        proof {
            assert(world@.take(world@.len() as int) =~= world@);
        }
        found
    }

    /// The other entities that stand in the chunk in which the entity `ent`
    /// stands, in the order of the world. The entity must exist and have a
    /// transform.
    pub fn get_all_other_entities_in_chunk(&self, world: &World, ent: Entity) -> (r: Vec<Entity>)
        requires
            world.wf(),
            is_placed(world@, ent),
        ensures
            r@ == select(
                world@,
                |d: EntityView|
                    d.entity != ent && stands_in_chunk(d, chunk_of(grid_position_of(world@, ent))),
            ),
    {
        let target = chunk_of(get_entity_grid_position(world, ent));
        let ghost wanted = |d: EntityView|
            d.entity != ent && stands_in_chunk(d, chunk_of(grid_position_of(world@, ent)));
        let mut found: Vec<Entity> = Vec::new();
        let mut i: usize = 0;
        proof {
            assert(world@.take(0) =~= Seq::<EntityView>::empty());
        }
        while i < world.len()
            invariant
                i <= world@.len(),
                target == chunk_of(grid_position_of(world@, ent)),
                wanted == |d: EntityView|
                    d.entity != ent && stands_in_chunk(
                        d,
                        chunk_of(grid_position_of(world@, ent)),
                    ),
                found@ == select(world@.take(i as int), wanted),
            decreases world@.len() - i,
        {
            proof {
                lemma_select_step(world@, wanted, i as int);
            }
            match world.transform(i) {
                Some(transform) => {
                    if world.entity(i) != ent && chunk_of(transform.grid_position) == target {
                        found.push(world.entity(i));
                    }
                },
                None => {},
            }
            i += 1;
        }
        proof {
            assert(world@.take(world@.len() as int) =~= world@);
        }
        found
    }
}

/// How a world grows: the chunk next to the first one is looked up, and made
/// where it does not exist yet.
#[allow(dead_code)]
fn _example() {
    let mut current_chunk_pos = Vector2Int::default();
    let mut map = WorldMap::new();
    map.add_new_chunk(current_chunk_pos);

    current_chunk_pos.x += 1;

    if map.try_get_chunk(&current_chunk_pos).is_none() {
        map.add_new_chunk(current_chunk_pos);
    }
    let _new_chunk = match map.try_get_chunk(&current_chunk_pos) {
        Some(chunk) => chunk,
        None => vstd::pervasive::unreached(),
    };
}

/// A cell with a coordinate of zero lies in a chunk with that coordinate zero,
/// and a cell less than a chunk's side from both axes lies in the chunk at
/// the origin.
pub proof fn lemma_chunk_of_near_axes(position: Vector2Int)
    ensures
        position.x == 0 ==> chunk_of(position).x == 0,
        position.y == 0 ==> chunk_of(position).y == 0,
        -MAX_CHUNK_SIZE < position.x < MAX_CHUNK_SIZE ==> chunk_of(position).x == 0,
        -MAX_CHUNK_SIZE < position.y < MAX_CHUNK_SIZE ==> chunk_of(position).y == 0,
{
}

/// Each cell that a chunk with no negative coordinate covers resolves to that
/// chunk.
pub proof fn lemma_footprint_resolves(chunk: Vector2Int, position: Vector2Int)
    requires
        chunk.x >= 0,
        chunk.y >= 0,
        in_footprint(chunk, position),
    ensures
        chunk_of(position) == chunk,
{
    assert(position.x as int / 40 == chunk.x) by (nonlinear_arith)
        requires
            chunk.x * 40 <= position.x < chunk.x * 40 + 40,
    ;
    assert(position.y as int / 40 == chunk.y) by (nonlinear_arith)
        requires
            chunk.y * 40 <= position.y < chunk.y * 40 + 40,
    ;
}


/// The cells of the grid from column `x0` up to, not including, column `x1`,
/// and from row `y0` up to, not including, row `y1`.
spec fn block(x0: int, x1: int, y0: int, y1: int) -> Set<Vector2Int> {
    Set::new(|p: Vector2Int| x0 <= p.x < x1 && y0 <= p.y < y1)
}

proof fn lemma_column_count(x: int, y0: int, y1: int)
    requires
        i32::MIN <= x <= i32::MAX,
        i32::MIN <= y0 <= y1 <= i32::MAX + 1,
    ensures
        block(x, x + 1, y0, y1).finite(),
        block(x, x + 1, y0, y1).len() == y1 - y0,
    decreases y1 - y0,
{
    if y0 == y1 {
        assert(block(x, x + 1, y0, y1) =~= Set::<Vector2Int>::empty());
    } else {
        lemma_column_count(x, y0, y1 - 1);
        let top = Vector2Int { x: x as i32, y: (y1 - 1) as i32 };
        assert(block(x, x + 1, y0, y1) =~= block(x, x + 1, y0, y1 - 1).insert(top));
        assert(!block(x, x + 1, y0, y1 - 1).contains(top));
    }
}

proof fn lemma_block_count(x0: int, x1: int, y0: int, y1: int)
    requires
        i32::MIN <= x0 <= x1 <= i32::MAX + 1,
        i32::MIN <= y0 <= y1 <= i32::MAX + 1,
    ensures
        block(x0, x1, y0, y1).finite(),
        block(x0, x1, y0, y1).len() == (x1 - x0) * (y1 - y0),
    decreases x1 - x0,
{
    if x0 == x1 {
        assert(block(x0, x1, y0, y1) =~= Set::<Vector2Int>::empty());
        assert((x1 - x0) * (y1 - y0) == 0) by (nonlinear_arith)
            requires
                x1 - x0 == 0,
        ;
    } else {
        lemma_block_count(x0, x1 - 1, y0, y1);
        lemma_column_count(x1 - 1, y0, y1);
        let left = block(x0, x1 - 1, y0, y1);
        let column = block(x1 - 1, x1, y0, y1);
        assert(block(x0, x1, y0, y1) =~= left + column);
        assert(left.disjoint(column));
        vstd::set_lib::lemma_set_disjoint_lens(left, column);
        assert((x1 - 1 - x0) * (y1 - y0) + (y1 - y0) == (x1 - x0) * (y1 - y0)) by (nonlinear_arith);
    }
}

/// A square of cells that lies on the grid has as many cells as its side,
/// twice the range and one, times itself.
pub proof fn lemma_square_count(origin: Vector2Int, range: int)
    requires
        range >= 0,
        i32::MIN <= origin.x - range,
        origin.x + range <= i32::MAX,
        i32::MIN <= origin.y - range,
        origin.y + range <= i32::MAX,
    ensures
        square(origin, range).finite(),
        square(origin, range).len() == (2 * range + 1) * (2 * range + 1),
{
    lemma_block_count(
        origin.x - range,
        origin.x + range + 1,
        origin.y - range,
        origin.y + range + 1,
    );
    assert(square(origin, range) =~= block(
        origin.x - range,
        origin.x + range + 1,
        origin.y - range,
        origin.y + range + 1,
    ));
}

/// Where each cell within `range` of `origin` holds a tile, the tiles within
/// that range are as many as the square has cells: its side, twice the range
/// and one, times itself.
pub proof fn lemma_range_query_count(tiles: Map<Vector2Int, Tile>, origin: Vector2Int, range: int)
    requires
        range >= 0,
        i32::MIN <= origin.x - range,
        origin.x + range <= i32::MAX,
        i32::MIN <= origin.y - range,
        origin.y + range <= i32::MAX,
        square(origin, range).subset_of(tiles.dom()),
    ensures
        tiles.restrict(square(origin, range)).dom().finite(),
        tiles.restrict(square(origin, range)).dom().len() == (2 * range + 1) * (2 * range + 1),
{
    lemma_square_count(origin, range);
    assert(tiles.restrict(square(origin, range)).dom() =~= square(origin, range));
}

} // verus!
