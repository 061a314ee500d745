//! What a map tile holds, the map of all tiles, the rivers that run along
//! tile edges, and the questions asked of a tile: can units pass it, is it
//! coastal land, does fresh water touch it.

use crate::hex::{
    spec_edge_direction, spec_edge_index, spec_hexes_at_distance, spec_neighbor, spec_opposite,
    Direction, HexOrientation, HexPosition, MapParameters,
};
use crate::terrain::{BaseTerrain, Feature, NaturalWonder, Ruleset, TerrainType};
use vstd::prelude::*;

verus! {

/// Everything the map generator knows of one tile.
#[derive(Clone, Copy, Debug)]
pub struct TileQueryItem {
    pub entity: u64,
    pub hex_position: HexPosition,
    pub terrain_type: TerrainType,
    pub base_terrain: BaseTerrain,
    pub feature: Option<Feature>,
    pub natural_wonder: Option<NaturalWonder>,
    pub area_id: i32,
}

/// All tiles of the map, by tile index.
#[derive(Clone, Debug)]
pub struct TileQuery {
    pub tiles: Vec<TileQueryItem>,
}

/// The rivers of the map: river `r` is the list of its edges; an edge is the tile
/// it belongs to (by index) and the direction in which the water flows.
#[derive(Clone, Debug)]
pub struct River(pub Vec<Vec<(usize, Direction)>>);

impl TileQuery {
    /// There is one tile per map index, and the tile at index `i` sits at the position of index `i`.
    pub open spec fn well_formed(&self, mp: &MapParameters) -> bool {
        &&& mp.well_formed()
        &&& self.tiles.len() == mp.tile_count()
        &&& forall|i: int|
            0 <= i < self.tiles.len() ==> (#[trigger] self.tiles@[i]).hex_position.small_pos()
                && mp.hex_cell(self.tiles@[i].hex_position.pair()) == Some(i)
    }

    /// The indices of the tiles adjacent to tile `i`.
    pub open spec fn spec_neighbors(&self, mp: &MapParameters, i: int) -> Seq<int> {
        let p = self.tiles@[i].hex_position.pair();
        mp.spec_cells(spec_hexes_at_distance(p.0, p.1, 1))
    }
}

/// Whether a river edge flowing in `flow` lies along the edge of its tile in `direction`.
/// Only the first three edge directions carry rivers; the others belong to the neighbor.
pub open spec fn river_lies_on(o: HexOrientation, direction: Direction, flow: Direction) -> bool {
    match o {
        HexOrientation::Pointy => {
            ||| (direction == Direction::East && (flow == Direction::North || flow
                == Direction::South))
            ||| (direction == Direction::SouthEast && (flow == Direction::NorthEast || flow
                == Direction::SouthWest))
            ||| (direction == Direction::SouthWest && (flow == Direction::NorthWest || flow
                == Direction::SouthEast))
        },
        HexOrientation::Flat => {
            ||| (direction == Direction::NorthEast && (flow == Direction::NorthWest || flow
                == Direction::SouthEast))
            ||| (direction == Direction::SouthEast && (flow == Direction::NorthEast || flow
                == Direction::SouthWest))
            ||| (direction == Direction::South && (flow == Direction::East || flow
                == Direction::West))
        },
    }
}

/// Some river has an edge of tile `t` along its `direction` edge.
pub open spec fn own_edge_has_river(river: &River, o: HexOrientation, t: int, direction: Direction) -> bool {
    exists|r: int, k: int|
        0 <= r < river.0.len() && 0 <= k < river.0@[r].len() && (#[trigger] river.0@[r]@[k]).0
            == t && river_lies_on(o, direction, river.0@[r]@[k].1)
}

/// A river runs along the `direction` edge of tile `t`: the first three edges are
/// stored with the tile, the other three with the neighbor across them.
pub open spec fn spec_has_river(
    river: &River,
    mp: &MapParameters,
    query: &TileQuery,
    t: int,
    direction: Direction,
) -> bool {
    let o = mp.orientation;
    if spec_edge_index(o, direction) < 3 {
        own_edge_has_river(river, o, t, direction)
    } else {
        match mp.hex_cell(spec_neighbor(query.tiles@[t].hex_position.pair(), o, direction)) {
            Some(n) => own_edge_has_river(river, o, n, spec_opposite(direction)),
            None => false,
        }
    }
}

fn river_lies_on_exec(o: HexOrientation, direction: Direction, flow: Direction) -> (r: bool)
    ensures
        r == river_lies_on(o, direction, flow),
{
    match o {
        HexOrientation::Pointy => (direction == Direction::East && (flow == Direction::North
            || flow == Direction::South)) || (direction == Direction::SouthEast && (flow
            == Direction::NorthEast || flow == Direction::SouthWest)) || (direction
            == Direction::SouthWest && (flow == Direction::NorthWest || flow
            == Direction::SouthEast)),
        HexOrientation::Flat => (direction == Direction::NorthEast && (flow
            == Direction::NorthWest || flow == Direction::SouthEast)) || (direction
            == Direction::SouthEast && (flow == Direction::NorthEast || flow
            == Direction::SouthWest)) || (direction == Direction::South && (flow
            == Direction::East || flow == Direction::West)),
    }
}

fn own_edge_has_river_exec(river: &River, o: HexOrientation, t: usize, direction: Direction) -> (r:
    bool)
    ensures
        r == own_edge_has_river(river, o, t as int, direction),
{
    let mut ri: usize = 0;
    while ri < river.0.len()
        invariant
            0 <= ri <= river.0.len(),
            forall|r: int, k: int|
                0 <= r < ri && 0 <= k < river.0@[r].len() ==> !((#[trigger] river.0@[r]@[k]).0
                    == t && river_lies_on(o, direction, river.0@[r]@[k].1)),
        decreases river.0.len() - ri,
    {
        let edges = &river.0[ri];
        let mut k: usize = 0;
        while k < edges.len()
            invariant
                0 <= ri < river.0.len(),
                edges@ == river.0@[ri as int]@,
                0 <= k <= edges.len(),
                forall|r: int, k2: int|
                    0 <= r < ri && 0 <= k2 < river.0@[r].len() ==> !((#[trigger] river.0@[r]@[k2]).0
                        == t && river_lies_on(o, direction, river.0@[r]@[k2].1)),
                forall|k2: int|
                    0 <= k2 < k ==> !((#[trigger] river.0@[ri as int]@[k2]).0 == t
                        && river_lies_on(o, direction, river.0@[ri as int]@[k2].1)),
            decreases edges.len() - k,
        {
            let (tile, flow) = edges[k];
            if tile == t && river_lies_on_exec(o, direction, flow) {
                assert(river.0@[ri as int]@[k as int].0 == t);
                return true;
            }
            k = k + 1;
        }
        ri = ri + 1;
    }
    false
}

impl TileQueryItem {
    /// Units cannot enter the tile: it is a mountain, or its feature or natural wonder blocks them.
    pub open spec fn spec_is_impassable(&self, ruleset: &Ruleset) -> bool {
        ||| self.terrain_type == TerrainType::Mountain
        ||| (self.feature matches Some(f) && ruleset.feature_impassable(f))
        ||| (self.natural_wonder matches Some(w) && ruleset.wonder_impassable(w))
    }

    /// Whether units are kept off this tile. A natural wonder on a tile that is not
    /// already blocked by its terrain or feature must be listed in the rules.
    pub fn is_impassable(&self, ruleset: &Ruleset) -> (r: bool)
        requires
            ruleset.well_formed(),
            !(self.terrain_type == TerrainType::Mountain || (self.feature matches Some(f) && ruleset.feature_impassable(f)))
                ==> (self.natural_wonder matches Some(w) ==> w.0 < ruleset.natural_wonders.len()),
        ensures
            r == self.spec_is_impassable(ruleset),
    {
        self.terrain_type == TerrainType::Mountain || match self.feature {
            Some(f) => f.impassable(ruleset),
            None => false,
        } || match self.natural_wonder {
            Some(w) => w.impassable(ruleset),
            None => false,
        }
    }

    /// The tile indices of this tile's neighbors.
    pub fn neighbor_indices(&self, map_parameters: &MapParameters) -> (r: Vec<usize>)
        requires
            map_parameters.well_formed(),
            self.hex_position.small_pos(),
        ensures
            r@.map_values(|c: usize| c as int) == map_parameters.spec_cells(
                spec_hexes_at_distance(self.hex_position.pair().0, self.hex_position.pair().1, 1),
            ),
            forall|i: int| 0 <= i < r.len() ==> #[trigger] r@[i] < map_parameters.tile_count(),
    {
        self.hex_position.indices_at_distance(1, map_parameters)
    }

    /// Whether a river runs along this tile's edge in `direction`.
    pub fn has_river(
        &self,
        index: usize,
        direction: Direction,
        map_parameters: &MapParameters,
        river: &River,
        query_tile: &TileQuery,
    ) -> (r: bool)
        requires
            query_tile.well_formed(map_parameters),
            index < query_tile.tiles.len(),
            query_tile.tiles@[index as int] == *self,
            spec_edge_index(map_parameters.orientation, direction) >= 0,
        ensures
            r == spec_has_river(river, map_parameters, query_tile, index as int, direction),
    {
        let o = map_parameters.orientation;
        let edge_index = o.edge_index(direction);
        assert(query_tile.tiles@[index as int].hex_position.small_pos());
        if edge_index < 3 {
            own_edge_has_river_exec(river, o, index, direction)
        } else {
            match self.hex_position.index_neighbor(map_parameters, direction) {
                Some(n) => own_edge_has_river_exec(river, o, n, direction.opposite_direction()),
                None => false,
            }
        }
    }

    /// Some neighbor of tile `index` is water.
    fn any_neighbor_water(index: usize, map_parameters: &MapParameters, query_tile: &TileQuery) -> (r:
        bool)
        requires
            query_tile.well_formed(map_parameters),
            index < query_tile.tiles.len(),
        ensures
            r == exists|k: int|
                0 <= k < query_tile.spec_neighbors(map_parameters, index as int).len()
                    && query_tile.tiles@[#[trigger] query_tile.spec_neighbors(
                    map_parameters,
                    index as int,
                )[k]].terrain_type == TerrainType::Water,
    {
        let tile = &query_tile.tiles[index];
        assert(query_tile.tiles@[index as int].hex_position.small_pos());
        let ns = tile.neighbor_indices(map_parameters);
        let ghost sn = query_tile.spec_neighbors(map_parameters, index as int);
        assert(ns@.map_values(|c: usize| c as int) == sn);
        let mut k: usize = 0;
        while k < ns.len()
            invariant
                query_tile.well_formed(map_parameters),
                0 <= k <= ns.len(),
                ns@.map_values(|c: usize| c as int) == sn,
                index < query_tile.tiles.len(),
                sn == query_tile.spec_neighbors(map_parameters, index as int),
                forall|i: int| 0 <= i < ns.len() ==> #[trigger] ns@[i] < map_parameters.tile_count(),
                forall|j: int|
                    0 <= j < k ==> query_tile.tiles@[#[trigger] sn[j]].terrain_type
                        != TerrainType::Water,
            decreases ns.len() - k,
        {
            assert(sn[k as int] == ns@[k as int] as int);
            if query_tile.tiles[ns[k]].terrain_type == TerrainType::Water {
                assert(query_tile.tiles@[query_tile.spec_neighbors(map_parameters, index as int)[k as int]].terrain_type
                    == TerrainType::Water);
                return true;
            }
            k = k + 1;
        }
        false
    }

    /// Land next to water.
    pub open spec fn spec_is_coastal_land(
        mp: &MapParameters,
        query: &TileQuery,
        index: int,
    ) -> bool {
        &&& query.tiles@[index].terrain_type != TerrainType::Water
        &&& exists|k: int|
            0 <= k < query.spec_neighbors(mp, index).len() && query.tiles@[#[trigger] query.spec_neighbors(
                mp,
                index,
            )[k]].terrain_type == TerrainType::Water
    }

    /// Whether this (land) tile touches water.
    pub fn is_coastal_land(&self, index: usize, map_parameters: &MapParameters, query_tile: &TileQuery) -> (r:
        bool)
        requires
            query_tile.well_formed(map_parameters),
            index < query_tile.tiles.len(),
            query_tile.tiles@[index as int] == *self,
        ensures
            r == Self::spec_is_coastal_land(map_parameters, query_tile, index as int),
    {
        self.terrain_type != TerrainType::Water && Self::any_neighbor_water(
            index,
            map_parameters,
            query_tile,
        )
    }

    /// Land with a river along one of its edges, or next to a lake or an oasis.
    pub open spec fn spec_is_freshwater(
        mp: &MapParameters,
        river: &River,
        query: &TileQuery,
        index: int,
    ) -> bool {
        &&& query.tiles@[index].terrain_type != TerrainType::Water
        &&& (exists|e: int|
            0 <= e < 6 && #[trigger] spec_has_river(
                river,
                mp,
                query,
                index,
                spec_edge_direction(mp.orientation, e),
            )) || (exists|k: int|
            0 <= k < query.spec_neighbors(mp, index).len() && ({
                let n = query.tiles@[#[trigger] query.spec_neighbors(mp, index)[k]];
                n.base_terrain == BaseTerrain::Lake || n.feature == Some(Feature::Oasis)
            }))
    }

    /// Whether fresh water touches this tile.
    pub fn is_freshwater(
        &self,
        index: usize,
        map_parameters: &MapParameters,
        river: &River,
        query_tile: &TileQuery,
    ) -> (r: bool)
        requires
            query_tile.well_formed(map_parameters),
            index < query_tile.tiles.len(),
            query_tile.tiles@[index as int] == *self,
        ensures
            r == Self::spec_is_freshwater(map_parameters, river, query_tile, index as int),
    {
        let directions = map_parameters.edge_direction_array();
        let mut has_river = false;
        let mut e: usize = 0;
        while e < 6
            invariant
                query_tile.well_formed(map_parameters),
                index < query_tile.tiles.len(),
                query_tile.tiles@[index as int] == *self,
                0 <= e <= 6,
                forall|i: int| 0 <= i < 6 ==> directions@[i] == spec_edge_direction(map_parameters.orientation, i),
                has_river == exists|j: int|
                    0 <= j < e && #[trigger] spec_has_river(
                        river,
                        map_parameters,
                        query_tile,
                        index as int,
                        spec_edge_direction(map_parameters.orientation, j),
                    ),
            decreases 6 - e,
        {
            let d = directions[e];
            assert(spec_edge_index(map_parameters.orientation, d) == e as int);
            let h = self.has_river(index, d, map_parameters, river, query_tile);
            has_river = has_river || h;
            e = e + 1;
        }
        if self.terrain_type == TerrainType::Water {
            return false;
        }
        if has_river {
            return true;
        }
        assert(query_tile.tiles@[index as int].hex_position.small_pos());
        let ns = self.neighbor_indices(map_parameters);
        let ghost sn = query_tile.spec_neighbors(map_parameters, index as int);
        let mut k: usize = 0;
        while k < ns.len()
            invariant
                query_tile.well_formed(map_parameters),
                0 <= k <= ns.len(),
                ns@.map_values(|c: usize| c as int) == sn,
                index < query_tile.tiles.len(),
                sn == query_tile.spec_neighbors(map_parameters, index as int),
                self.terrain_type != TerrainType::Water,
                query_tile.tiles@[index as int] == *self,
                forall|i: int| 0 <= i < ns.len() ==> #[trigger] ns@[i] < map_parameters.tile_count(),
                forall|j: int|
                    0 <= j < k ==> ({
                        let n = query_tile.tiles@[#[trigger] sn[j]];
                        !(n.base_terrain == BaseTerrain::Lake || n.feature == Some(Feature::Oasis))
                    }),
            decreases ns.len() - k,
        {
            assert(sn[k as int] == ns@[k as int] as int);
            let n = &query_tile.tiles[ns[k]];
            let is_oasis = match n.feature {
                Some(Feature::Oasis) => true,
                _ => false,
            };
            if n.base_terrain == BaseTerrain::Lake || is_oasis {
                assert({
                    let m = query_tile.tiles@[query_tile.spec_neighbors(map_parameters, index as int)[k as int]];
                    m.base_terrain == BaseTerrain::Lake || m.feature == Some(Feature::Oasis)
                });
                return true;
            }
            k = k + 1;
        }
        false
    }
}

} // verus!
