//! Shaping the water of a generated map: coasts along the land, lakes in small water
//! areas, coasts and lakes around natural wonders.
//!
//! Each step reads the map as it stood when the step began and writes its changes at
//! the end, as the map generator's deferred updates do.

use crate::hex::{
    law_offset_hex_roundtrip, offset_sign, small, spec_edge_direction, spec_hex_to_offset, spec_edge_index, spec_neighbor, spec_offset_to_hex, Hex,
    HexPosition, MapParameters, TileStorage,
};
use crate::draws::{chance_at, draw_at, extends, lemma_extends_one, lemma_extends_push, lemma_extends_refl, lemma_extends_trans};
use crate::terrain::{BaseTerrain, TerrainType};
use crate::turn::sorted;
use crate::tile_query::{spec_has_river, River, TileQuery, TileQueryItem};
use rand::distributions::{Bernoulli, Distribution};
use rand::rngs::StdRng;
use rand::Rng;
use std::collections::HashMap;
use vstd::prelude::*;

verus! {

/// The tile that an empty map holds at index `i`: open ocean with no area yet.
pub open spec fn empty_tile(mp: &MapParameters, entity: u64, i: int) -> TileQueryItem {
    let h = spec_offset_to_hex(i % (mp.width as int), i / (mp.width as int), mp.orientation, mp.offset);
    TileQueryItem {
        entity,
        hex_position: HexPosition([h.0 as i32, h.1 as i32]),
        terrain_type: TerrainType::Water,
        base_terrain: BaseTerrain::Ocean,
        feature: None,
        natural_wonder: None,
        area_id: -1i32,
    }
}

/// Lays out a map of open ocean, row by row: the tile at index `i` sits at the offset
/// coordinate `(i % width, i / width)` and is the entity `entities[i]`.
pub fn generate_empty_map(map_parameters: &MapParameters, entities: Vec<u64>) -> (r: (TileStorage, TileQuery))
    requires
        map_parameters.well_formed(),
        map_parameters.width <= 0x100_0000,
        map_parameters.height <= 0x100_0000,
        entities.len() == map_parameters.tile_count(),
    ensures
        r.0.tiles@ == entities@,
        r.1.well_formed(map_parameters),
        forall|i: int|
            0 <= i < r.1.tiles.len() ==> #[trigger] r.1.tiles@[i] == empty_tile(map_parameters, entities@[i], i),
{
    let n = entities.len();
    let mut tiles: Vec<TileQueryItem> = Vec::with_capacity(n);
    let mut i: usize = 0;
    while i < n
        invariant
            map_parameters.well_formed(),
            map_parameters.width <= 0x100_0000,
            map_parameters.height <= 0x100_0000,
            n == entities.len(),
            n == map_parameters.tile_count(),
            0 <= i <= n,
            tiles.len() == i,
            forall|j: int|
                0 <= j < i ==> (#[trigger] tiles@[j]) == empty_tile(map_parameters, entities@[j], j)
                    && tiles@[j].hex_position.small_pos()
                    && map_parameters.hex_cell(tiles@[j].hex_position.pair()) == Some(j),
        decreases n - i,
    {
        let c = map_parameters.index_to_offset_coordinate(i);
        let h = Hex::from_offset_coordinate(c, map_parameters.offset, map_parameters.orientation);
        proof {
            law_offset_hex_roundtrip(c@[0] as int, c@[1] as int, map_parameters.orientation, map_parameters.offset);
        }
        let item = TileQueryItem {
            entity: entities[i],
            hex_position: HexPosition([h.x, h.y]),
            terrain_type: TerrainType::Water,
            base_terrain: BaseTerrain::Ocean,
            feature: None,
            natural_wonder: None,
            area_id: -1,
        };
        tiles.push(item);
        i = i + 1;
    }
    (TileStorage { tiles: entities }, TileQuery { tiles })
}

/// The tile with a new base terrain.
pub open spec fn with_base(t: TileQueryItem, b: BaseTerrain) -> TileQueryItem {
    TileQueryItem { base_terrain: b, ..t }
}

/// Some neighbor of tile `i` is land.
pub open spec fn has_land_neighbor(mp: &MapParameters, q: &TileQuery, i: int) -> bool {
    exists|k: int|
        0 <= k < q.spec_neighbors(mp, i).len() && q.tiles@[#[trigger] q.spec_neighbors(mp, i)[k]].terrain_type
            != TerrainType::Water
}

/// The indices of tile `index`'s neighbors.
pub(crate) fn neighbors_of(index: usize, mp: &MapParameters, q: &TileQuery) -> (r: Vec<usize>)
    requires
        q.well_formed(mp),
        index < q.tiles.len(),
    ensures
        r@.len() == q.spec_neighbors(mp, index as int).len(),
        forall|k: int| 0 <= k < r.len() ==> #[trigger] r@[k] as int == q.spec_neighbors(mp, index as int)[k],
        forall|k: int| 0 <= k < r.len() ==> #[trigger] r@[k] < q.tiles.len(),
{
    assert(q.tiles@[index as int].hex_position.small_pos());
    let r = q.tiles[index].neighbor_indices(mp);
    proof {
        assert forall|k: int| 0 <= k < r.len() implies #[trigger] r@[k] as int == q.spec_neighbors(
            mp,
            index as int,
        )[k] by {
            assert(r@.map_values(|c: usize| c as int)[k] == r@[k] as int);
        }
    }
    r
}

/// Writes a new base terrain into every tile whose flag is set.
fn set_bases(q: &mut TileQuery, flags: &Vec<bool>, bases: &Vec<BaseTerrain>)
    requires
        flags.len() == old(q).tiles.len(),
        bases.len() == old(q).tiles.len(),
    ensures
        final(q).tiles.len() == old(q).tiles.len(),
        forall|i: int|
            0 <= i < old(q).tiles.len() ==> #[trigger] final(q).tiles@[i] == if flags@[i] {
                with_base(old(q).tiles@[i], bases@[i])
            } else {
                old(q).tiles@[i]
            },
{
    let ghost t0 = q.tiles@;
    let mut i: usize = 0;
    while i < q.tiles.len()
        invariant
            0 <= i <= q.tiles.len(),
            q.tiles.len() == t0.len(),
            flags.len() == t0.len(),
            bases.len() == t0.len(),
            forall|j: int|
                0 <= j < i ==> #[trigger] q.tiles@[j] == if flags@[j] {
                    with_base(t0[j], bases@[j])
                } else {
                    t0[j]
                },
            forall|j: int| i <= j < q.tiles.len() ==> #[trigger] q.tiles@[j] == t0[j],
        decreases q.tiles.len() - i,
    {
        if flags[i] {
            let mut t = q.tiles[i];
            t.base_terrain = bases[i];
            q.tiles.set(i, t);
        }
        i = i + 1;
    }
}

pub(crate) proof fn lemma_same_positions_keep_well_formed(mp: &MapParameters, a: &TileQuery, b: &TileQuery)
    requires
        a.well_formed(mp),
        b.tiles.len() == a.tiles.len(),
        forall|i: int| 0 <= i < a.tiles.len() ==> #[trigger] b.tiles@[i].hex_position == a.tiles@[i].hex_position,
    ensures
        b.well_formed(mp),
        forall|i: int| 0 <= i < a.tiles.len() ==> #[trigger] b.spec_neighbors(mp, i) == a.spec_neighbors(mp, i),
{
    assert forall|i: int| 0 <= i < b.tiles.len() implies (#[trigger] b.tiles@[i]).hex_position.small_pos()
        && mp.hex_cell(b.tiles@[i].hex_position.pair()) == Some(i) by {
        assert(a.tiles@[i].hex_position.small_pos());
    }
}

/// Makes coast of every water tile next to land; other tiles keep their base terrain.
pub fn generate_coast_and_ocean(map_parameters: &MapParameters, query_tile: &mut TileQuery)
    requires
        old(query_tile).well_formed(map_parameters),
    ensures
        final(query_tile).well_formed(map_parameters),
        final(query_tile).tiles.len() == old(query_tile).tiles.len(),
        forall|i: int|
            0 <= i < old(query_tile).tiles.len() ==> #[trigger] final(query_tile).tiles@[i] == if old(query_tile).tiles@[i].terrain_type == TerrainType::Water && has_land_neighbor(
                map_parameters,
                &*old(query_tile),
                i,
            ) {
                with_base(old(query_tile).tiles@[i], BaseTerrain::Coast)
            } else {
                old(query_tile).tiles@[i]
            },
{
    let n = query_tile.tiles.len();
    let mut flags: Vec<bool> = Vec::new();
    let mut bases: Vec<BaseTerrain> = Vec::new();
    let mut i: usize = 0;
    while i < n
        invariant
            query_tile.well_formed(map_parameters),
            n == query_tile.tiles.len(),
            0 <= i <= n,
            flags.len() == i,
            bases.len() == i,
            forall|j: int|
                0 <= j < i ==> #[trigger] flags@[j] == (query_tile.tiles@[j].terrain_type
                    == TerrainType::Water && has_land_neighbor(map_parameters, &*query_tile, j)),
            forall|j: int| 0 <= j < i ==> #[trigger] bases@[j] == BaseTerrain::Coast,
        decreases n - i,
    {
        let mut coast = false;
        if query_tile.tiles[i].terrain_type == TerrainType::Water {
            let ns = neighbors_of(i, map_parameters, query_tile);
            let mut k: usize = 0;
            while k < ns.len()
                invariant
                    query_tile.well_formed(map_parameters),
                    i < query_tile.tiles.len(),
                    ns@.len() == query_tile.spec_neighbors(map_parameters, i as int).len(),
                    forall|m: int|
                        0 <= m < ns.len() ==> #[trigger] ns@[m] as int == query_tile.spec_neighbors(
                            map_parameters,
                            i as int,
                        )[m],
                    forall|m: int| 0 <= m < ns.len() ==> #[trigger] ns@[m] < query_tile.tiles.len(),
                    0 <= k <= ns.len(),
                    coast == exists|m: int|
                        0 <= m < k && query_tile.tiles@[#[trigger] query_tile.spec_neighbors(
                            map_parameters,
                            i as int,
                        )[m]].terrain_type != TerrainType::Water,
                decreases ns.len() - k,
            {
                assert(ns@[k as int] as int == query_tile.spec_neighbors(map_parameters, i as int)[k as int]);
                if query_tile.tiles[ns[k]].terrain_type != TerrainType::Water {
                    coast = true;
                }
                k = k + 1;
            }
        }
        flags.push(coast);
        bases.push(BaseTerrain::Coast);
        i = i + 1;
    }
    let ghost q0 = *query_tile;
    set_bases(query_tile, &flags, &bases);
    proof {
        lemma_same_positions_keep_well_formed(map_parameters, &q0, query_tile);
    }
}

/// How many of the first `n` tiles are water of area `k`.
pub open spec fn water_count(tiles: Seq<TileQueryItem>, k: i32, n: int) -> int
    decreases n,
{
    if n <= 0 {
        0
    } else {
        water_count(tiles, k, n - 1) + if tiles[n - 1].terrain_type == TerrainType::Water
            && tiles[n - 1].area_id == k {
            1int
        } else {
            0
        }
    }
}

proof fn lemma_water_count_bounds(tiles: Seq<TileQueryItem>, k: i32, m: int, n: int)
    requires
        0 <= m <= n,
    ensures
        0 <= water_count(tiles, k, m) <= water_count(tiles, k, n) <= n,
    decreases n,
{
    if n > m {
        lemma_water_count_bounds(tiles, k, m, n - 1);
    } else if n > 0 {
        lemma_water_count_bounds(tiles, k, n - 1, n - 1);
    }
}

proof fn lemma_water_tile_counts(tiles: Seq<TileQueryItem>, i: int, n: int)
    requires
        0 <= i < n,
        tiles[i].terrain_type == TerrainType::Water,
    ensures
        water_count(tiles, tiles[i].area_id, n) >= 1,
    decreases n,
{
    if n - 1 > i {
        lemma_water_tile_counts(tiles, i, n - 1);
    } else {
        lemma_water_count_bounds(tiles, tiles[i].area_id, 0, n - 1);
    }
}

/// Turns into lake every water tile whose water area (by the tiles' area ids) has at
/// most `lake_max_area_size` tiles; other tiles are left as they are.
pub fn generate_lake(lake_max_area_size: u32, map_parameters: &MapParameters, query_tile: &mut TileQuery)
    requires
        old(query_tile).well_formed(map_parameters),
    ensures
        final(query_tile).well_formed(map_parameters),
        final(query_tile).tiles.len() == old(query_tile).tiles.len(),
        forall|i: int|
            0 <= i < old(query_tile).tiles.len() ==> #[trigger] final(query_tile).tiles@[i] == if old(query_tile).tiles@[i].terrain_type == TerrainType::Water && water_count(
                old(query_tile).tiles@,
                old(query_tile).tiles@[i].area_id,
                old(query_tile).tiles.len() as int,
            ) <= lake_max_area_size {
                with_base(old(query_tile).tiles@[i], BaseTerrain::Lake)
            } else {
                old(query_tile).tiles@[i]
            },
{
    broadcast use vstd::std_specs::hash::group_hash_axioms;

    let n = query_tile.tiles.len();
    assert(n <= 0x1000_0000) by {
        assert(map_parameters.width * map_parameters.height <= 0x1000_0000);
    }
    let ghost tiles = query_tile.tiles@;
    let mut sizes: HashMap<i32, u32> = HashMap::new();
    let mut i: usize = 0;
    while i < n
        invariant
            n == query_tile.tiles.len(),
            tiles == query_tile.tiles@,
            n <= 0x1000_0000,
            0 <= i <= n,
            forall|k: i32| #[trigger] sizes@.contains_key(k) ==> sizes@[k] == water_count(tiles, k, i as int),
            forall|k: i32| !#[trigger] sizes@.contains_key(k) ==> water_count(tiles, k, i as int) == 0,
        decreases n - i,
    {
        let t = query_tile.tiles[i];
        if t.terrain_type == TerrainType::Water {
            let before = match sizes.get(&t.area_id) {
                Some(c) => *c,
                None => 0,
            };
            proof {
                lemma_water_count_bounds(tiles, t.area_id, i as int, i as int);
            }
            sizes.insert(t.area_id, before + 1);
        }
        i = i + 1;
    }
    let mut flags: Vec<bool> = Vec::new();
    let mut bases: Vec<BaseTerrain> = Vec::new();
    let mut i: usize = 0;
    while i < n
        invariant
            n == query_tile.tiles.len(),
            tiles == query_tile.tiles@,
            0 <= i <= n,
            forall|k: i32| #[trigger] sizes@.contains_key(k) ==> sizes@[k] == water_count(tiles, k, n as int),
            forall|k: i32| !#[trigger] sizes@.contains_key(k) ==> water_count(tiles, k, n as int) == 0,
            flags.len() == i,
            bases.len() == i,
            forall|j: int|
                0 <= j < i ==> #[trigger] flags@[j] == (tiles[j].terrain_type == TerrainType::Water
                    && water_count(tiles, tiles[j].area_id, n as int) <= lake_max_area_size),
            forall|j: int| 0 <= j < i ==> #[trigger] bases@[j] == BaseTerrain::Lake,
        decreases n - i,
    {
        let t = query_tile.tiles[i];
        let mut lake = false;
        if t.terrain_type == TerrainType::Water {
            match sizes.get(&t.area_id) {
                Some(c) => {
                    lake = *c <= lake_max_area_size;
                },
                None => {
                    proof {
                        lemma_water_tile_counts(tiles, i as int, n as int);
                    }
                },
            }
        }
        flags.push(lake);
        bases.push(BaseTerrain::Lake);
        i = i + 1;
    }
    let ghost q0 = *query_tile;
    set_bases(query_tile, &flags, &bases);
    proof {
        lemma_same_positions_keep_well_formed(map_parameters, &q0, query_tile);
    }
}

/// Some land tile with a natural wonder has tile `w` among its neighbors.
pub open spec fn next_to_land_wonder(mp: &MapParameters, q: &TileQuery, w: int) -> bool {
    exists|t: int|
        0 <= t < q.tiles.len() && (#[trigger] q.tiles@[t]).natural_wonder is Some
            && q.tiles@[t].terrain_type != TerrainType::Water && q.spec_neighbors(mp, t).contains(w)
}

/// Some neighbor of tile `i` is a lake.
pub open spec fn has_lake_neighbor(mp: &MapParameters, q: &TileQuery, i: int) -> bool {
    exists|k: int|
        0 <= k < q.spec_neighbors(mp, i).len() && q.tiles@[#[trigger] q.spec_neighbors(mp, i)[k]].base_terrain
            == BaseTerrain::Lake
}

/// After natural wonders are placed: each water tile next to a land wonder becomes lake
/// when one of its own neighbors is a lake, coast otherwise; other tiles are left.
pub fn regenerate_coast(map_parameters: &MapParameters, query_tile: &mut TileQuery)
    requires
        old(query_tile).well_formed(map_parameters),
    ensures
        final(query_tile).well_formed(map_parameters),
        final(query_tile).tiles.len() == old(query_tile).tiles.len(),
        forall|i: int|
            0 <= i < old(query_tile).tiles.len() ==> #[trigger] final(query_tile).tiles@[i] == if old(query_tile).tiles@[i].terrain_type == TerrainType::Water && next_to_land_wonder(
                map_parameters,
                &*old(query_tile),
                i,
            ) {
                with_base(
                    old(query_tile).tiles@[i],
                    if has_lake_neighbor(map_parameters, &*old(query_tile), i) {
                        BaseTerrain::Lake
                    } else {
                        BaseTerrain::Coast
                    },
                )
            } else {
                old(query_tile).tiles@[i]
            },
{
    let n = query_tile.tiles.len();
    // the water tiles next to a land wonder
    let mut marked: Vec<bool> = Vec::new();
    let mut i: usize = 0;
    while i < n
        invariant
            0 <= i <= n,
            marked.len() == i,
            forall|j: int| 0 <= j < i ==> !#[trigger] marked@[j],
        decreases n - i,
    {
        marked.push(false);
        i = i + 1;
    }
    let mut t: usize = 0;
    while t < n
        invariant
            query_tile.well_formed(map_parameters),
            n == query_tile.tiles.len(),
            marked.len() == n,
            0 <= t <= n,
            forall|w: int|
                0 <= w < n ==> #[trigger] marked@[w] == (query_tile.tiles@[w].terrain_type
                    == TerrainType::Water && exists|u: int|
                    0 <= u < t && (#[trigger] query_tile.tiles@[u]).natural_wonder is Some
                        && query_tile.tiles@[u].terrain_type != TerrainType::Water
                        && query_tile.spec_neighbors(map_parameters, u).contains(w)),
        decreases n - t,
    {
        let tile = query_tile.tiles[t];
        if tile.natural_wonder.is_some() && tile.terrain_type != TerrainType::Water {
            let ns = neighbors_of(t, map_parameters, query_tile);
            let ghost before = marked@;
            let mut k: usize = 0;
            while k < ns.len()
                invariant
                    query_tile.well_formed(map_parameters),
                    n == query_tile.tiles.len(),
                    t < n,
                    marked.len() == n,
                    ns@.len() == query_tile.spec_neighbors(map_parameters, t as int).len(),
                    forall|m: int|
                        0 <= m < ns.len() ==> #[trigger] ns@[m] as int == query_tile.spec_neighbors(
                            map_parameters,
                            t as int,
                        )[m],
                    forall|m: int| 0 <= m < ns.len() ==> #[trigger] ns@[m] < n,
                    0 <= k <= ns.len(),
                    forall|w: int|
                        0 <= w < n ==> #[trigger] marked@[w] == (before[w] || (query_tile.tiles@[w].terrain_type
                            == TerrainType::Water && exists|m: int|
                            0 <= m < k && query_tile.spec_neighbors(map_parameters, t as int)[m] == w)),
                decreases ns.len() - k,
            {
                let w = ns[k];
                if query_tile.tiles[w].terrain_type == TerrainType::Water {
                    marked.set(w, true);
                }
                proof {
                    assert(query_tile.spec_neighbors(map_parameters, t as int)[k as int] == w as int);
                }
                k = k + 1;
            }
            proof {
                let sn = query_tile.spec_neighbors(map_parameters, t as int);
                assert forall|w: int| 0 <= w < n implies (exists|m: int| 0 <= m < ns.len() && sn[m] == w)
                    == sn.contains(w) by {
                    if sn.contains(w) {
                        let m = choose|m: int| 0 <= m < sn.len() && sn[m] == w;
                    }
                }
            }
        }
        t = t + 1;
    }
    // what each marked tile becomes, read from the map as it stood
    let mut bases: Vec<BaseTerrain> = Vec::new();
    let mut i: usize = 0;
    while i < n
        invariant
            query_tile.well_formed(map_parameters),
            n == query_tile.tiles.len(),
            0 <= i <= n,
            bases.len() == i,
            forall|j: int|
                0 <= j < i ==> #[trigger] bases@[j] == if has_lake_neighbor(map_parameters, &*query_tile, j) {
                    BaseTerrain::Lake
                } else {
                    BaseTerrain::Coast
                },
        decreases n - i,
    {
        let ns = neighbors_of(i, map_parameters, query_tile);
        let mut lake = false;
        let mut k: usize = 0;
        while k < ns.len()
            invariant
                query_tile.well_formed(map_parameters),
                i < query_tile.tiles.len(),
                ns@.len() == query_tile.spec_neighbors(map_parameters, i as int).len(),
                forall|m: int|
                    0 <= m < ns.len() ==> #[trigger] ns@[m] as int == query_tile.spec_neighbors(
                        map_parameters,
                        i as int,
                    )[m],
                forall|m: int| 0 <= m < ns.len() ==> #[trigger] ns@[m] < query_tile.tiles.len(),
                0 <= k <= ns.len(),
                lake == exists|m: int|
                    0 <= m < k && query_tile.tiles@[#[trigger] query_tile.spec_neighbors(
                        map_parameters,
                        i as int,
                    )[m]].base_terrain == BaseTerrain::Lake,
            decreases ns.len() - k,
        {
            assert(ns@[k as int] as int == query_tile.spec_neighbors(map_parameters, i as int)[k as int]);
            if query_tile.tiles[ns[k]].base_terrain == BaseTerrain::Lake {
                lake = true;
            }
            k = k + 1;
        }
        bases.push(if lake {
            BaseTerrain::Lake
        } else {
            BaseTerrain::Coast
        });
        i = i + 1;
    }
    let ghost q0 = *query_tile;
    set_bases(query_tile, &marked, &bases);
    proof {
        lemma_same_positions_keep_well_formed(map_parameters, &q0, query_tile);
    }
}

/// Tile `i` may become a lake: it is land without a natural wonder, no river runs along
/// any of its edges, and every neighbor is land, without a natural wonder, and not
/// already made a lake.
pub open spec fn spec_can_add_lake(
    mp: &MapParameters,
    river: &River,
    q: &TileQuery,
    added: Seq<bool>,
    i: int,
) -> bool {
    &&& q.tiles@[i].terrain_type != TerrainType::Water
    &&& q.tiles@[i].natural_wonder is None
    &&& forall|e: int|
        0 <= e < 6 ==> !#[trigger] spec_has_river(river, mp, q, i, spec_edge_direction(mp.orientation, e))
    &&& forall|k: int|
        0 <= k < q.spec_neighbors(mp, i).len() ==> {
            let m = #[trigger] q.spec_neighbors(mp, i)[k];
            &&& q.tiles@[m].terrain_type != TerrainType::Water
            &&& !added[m]
            &&& q.tiles@[m].natural_wonder is None
        }
}

/// Whether tile `index` may become a lake, `added` marking the tiles already made lakes.
pub fn can_add_lake(
    index: usize,
    added: &Vec<bool>,
    river: &River,
    map_parameters: &MapParameters,
    query_tile: &TileQuery,
) -> (r: bool)
    requires
        query_tile.well_formed(map_parameters),
        index < query_tile.tiles.len(),
        added.len() == query_tile.tiles.len(),
    ensures
        r == spec_can_add_lake(map_parameters, river, query_tile, added@, index as int),
{
    let tile = query_tile.tiles[index];
    if tile.terrain_type == TerrainType::Water || tile.natural_wonder.is_some() {
        return false;
    }
    let directions = map_parameters.edge_direction_array();
    let mut e: usize = 0;
    while e < 6
        invariant
            query_tile.well_formed(map_parameters),
            index < query_tile.tiles.len(),
            tile == query_tile.tiles@[index as int],
            0 <= e <= 6,
            forall|j: int| 0 <= j < 6 ==> directions@[j] == spec_edge_direction(map_parameters.orientation, j),
            forall|j: int|
                0 <= j < e ==> !#[trigger] spec_has_river(
                    river,
                    map_parameters,
                    query_tile,
                    index as int,
                    spec_edge_direction(map_parameters.orientation, j),
                ),
        decreases 6 - e,
    {
        let d = directions[e];
        assert(spec_edge_index(map_parameters.orientation, d) == e as int);
        if tile.has_river(index, d, map_parameters, river, query_tile) {
            return false;
        }
        e = e + 1;
    }
    let ns = neighbors_of(index, map_parameters, query_tile);
    let mut k: usize = 0;
    while k < ns.len()
        invariant
            query_tile.well_formed(map_parameters),
            index < query_tile.tiles.len(),
            added.len() == query_tile.tiles.len(),
            ns@.len() == query_tile.spec_neighbors(map_parameters, index as int).len(),
            forall|m: int|
                0 <= m < ns.len() ==> #[trigger] ns@[m] as int == query_tile.spec_neighbors(
                    map_parameters,
                    index as int,
                )[m],
            forall|m: int| 0 <= m < ns.len() ==> #[trigger] ns@[m] < query_tile.tiles.len(),
            0 <= k <= ns.len(),
            forall|j: int|
                0 <= j < k ==> {
                    let m = #[trigger] query_tile.spec_neighbors(map_parameters, index as int)[j];
                    &&& query_tile.tiles@[m].terrain_type != TerrainType::Water
                    &&& !added@[m]
                    &&& query_tile.tiles@[m].natural_wonder is None
                },
        decreases ns.len() - k,
    {
        let m = ns[k];
        assert(m as int == query_tile.spec_neighbors(map_parameters, index as int)[k as int]);
        let nt = query_tile.tiles[m];
        if nt.terrain_type == TerrainType::Water || added[m] || nt.natural_wonder.is_some() {
            return false;
        }
        k = k + 1;
    }
    true
}

#[verifier::external_type_specification]
#[verifier::external_body]
pub struct ExStdRng(StdRng);

#[verifier::external_type_specification]
#[verifier::external_body]
pub struct ExBernoulli(Bernoulli);

/// The map generator's source of random numbers.
pub struct RandomNumberGenerator {
    pub rng: StdRng,
}

/// A number drawn from `0..upper` by rand's `Rng::gen_range` (which panics on an empty
/// range, hence `upper > 0`); which number comes out is left open.
#[verifier::external_body]
pub(crate) fn draw_below(rng: &mut StdRng, upper: u32) -> (r: u32)
    requires
        upper > 0,
    ensures
        r < upper,
{
    rng.gen_range(0..upper)
}

/// A yes-or-no drawn by rand's `Bernoulli::sample`; which one comes out is left open.
#[verifier::external_body]
fn draw_chance(chance: &Bernoulli, rng: &mut StdRng) -> (r: bool) {
    chance.sample(rng)
}

/// The tile made a lake: water, lake base terrain, no feature.
pub open spec fn lake_of(t: TileQueryItem) -> TileQueryItem {
    TileQueryItem { terrain_type: TerrainType::Water, base_terrain: BaseTerrain::Lake, feature: None, ..t }
}

/// Tile `i` may hold a lake at all: it is land without a natural wonder and no river
/// runs along its edges.
pub open spec fn lake_site(mp: &MapParameters, river: &River, q: &TileQuery, i: int) -> bool {
    &&& q.tiles@[i].terrain_type != TerrainType::Water
    &&& q.tiles@[i].natural_wonder is None
    &&& forall|e: int|
        0 <= e < 6 ==> !#[trigger] spec_has_river(river, mp, q, i, spec_edge_direction(mp.orientation, e))
}

/// The tiles' indices ordered by entity id.
/// `order` lists every tile once, by increasing entity.
pub open spec fn entity_sorted(q: &TileQuery, order: Seq<usize>) -> bool {
    &&& order.len() == q.tiles.len()
    &&& forall|k: int| 0 <= k < order.len() ==> #[trigger] order[k] < q.tiles.len()
    &&& forall|a: int, b: int| 0 <= a < b < order.len() ==> order[a] != order[b]
    &&& forall|a: int, b: int|
        0 <= a <= b < order.len() ==> q.tiles@[order[a] as int].entity <= q.tiles@[order[b] as int].entity
}

/// The tiles by increasing entity (tiles of equal entity in index order).
pub(crate) fn order_by_entity(q: &TileQuery) -> (r: Vec<usize>)
    ensures
        entity_sorted(q, r@),
{
    let n = q.tiles.len();
    let mut pairs: Vec<(u64, usize)> = Vec::new();
    let mut i: usize = 0;
    while i < n
        invariant
            n == q.tiles.len(),
            0 <= i <= n,
            pairs.len() == i,
            forall|k: int|
                0 <= k < pairs.len() ==> (#[trigger] pairs@[k]).1 < i && pairs@[k].0 == q.tiles@[pairs@[k].1 as int].entity,
            forall|a: int, b: int| 0 <= a < b < pairs.len() ==> pairs@[a].1 != pairs@[b].1,
            forall|a: int, b: int| 0 <= a <= b < pairs.len() ==> pairs@[a].0 <= pairs@[b].0,
        decreases n - i,
    {
        // insert tile i after every pair with an entity no larger than its own
        let e = q.tiles[i].entity;
        let mut k: usize = 0;
        while k < pairs.len() && pairs[k].0 <= e
            invariant
                0 <= k <= pairs.len(),
                forall|j: int| 0 <= j < k ==> pairs@[j].0 <= e,
            decreases pairs.len() - k,
        {
            k = k + 1;
        }
        let ghost before = pairs@;
        pairs.insert(k, (e, i));
        proof {
            assert forall|m: int| 0 <= m < pairs.len() implies (#[trigger] pairs@[m]).1 < i + 1
                && pairs@[m].0 == q.tiles@[pairs@[m].1 as int].entity by {
                if m < k {
                    assert(pairs@[m] == before[m]);
                } else if m > k {
                    assert(pairs@[m] == before[m - 1]);
                }
            }
            assert forall|a: int, b: int| 0 <= a < b < pairs.len() implies pairs@[a].1 != pairs@[b].1 by {
                if a < k && b < k {
                    assert(pairs@[a] == before[a] && pairs@[b] == before[b]);
                } else if a < k && b == k {
                    assert(pairs@[a] == before[a]);
                } else if a < k {
                    assert(pairs@[a] == before[a] && pairs@[b] == before[b - 1]);
                } else if a == k {
                    assert(pairs@[b] == before[b - 1]);
                } else {
                    assert(pairs@[a] == before[a - 1] && pairs@[b] == before[b - 1]);
                }
            }
            assert forall|a: int, b: int| 0 <= a <= b < pairs.len() implies pairs@[a].0 <= pairs@[b].0 by {
                if a < k && b < k {
                    assert(pairs@[a] == before[a] && pairs@[b] == before[b]);
                } else if a < k && b == k {
                    assert(pairs@[a] == before[a]);
                } else if a < k {
                    assert(pairs@[a] == before[a] && pairs@[b] == before[b - 1]);
                } else if a == k && b > k {
                    assert(pairs@[b] == before[b - 1]);
                    assert(before[k as int].0 > e);
                } else if a > k {
                    assert(pairs@[a] == before[a - 1] && pairs@[b] == before[b - 1]);
                }
            }
        }
        i = i + 1;
    }
    let mut r: Vec<usize> = Vec::new();
    let mut j: usize = 0;
    while j < pairs.len()
        invariant
            n == q.tiles.len(),
            pairs.len() == n,
            0 <= j <= pairs.len(),
            r.len() == j,
            forall|k: int|
                0 <= k < pairs.len() ==> (#[trigger] pairs@[k]).1 < n && pairs@[k].0 == q.tiles@[pairs@[k].1 as int].entity,
            forall|a: int, b: int| 0 <= a < b < pairs.len() ==> pairs@[a].1 != pairs@[b].1,
            forall|a: int, b: int| 0 <= a <= b < pairs.len() ==> pairs@[a].0 <= pairs@[b].0,
            forall|k: int| 0 <= k < r.len() ==> #[trigger] r@[k] == pairs@[k].1,
        decreases pairs.len() - j,
    {
        r.push(pairs[j].1);
        j = j + 1;
    }
    proof {
        assert forall|a: int, b: int| 0 <= a <= b < r.len() implies q.tiles@[r@[a] as int].entity
            <= q.tiles@[r@[b] as int].entity by {
            assert(r@[a] == pairs@[a].1 && r@[b] == pairs@[b].1);
        }
        assert forall|a: int, b: int| 0 <= a < b < r.len() implies r@[a] != r@[b] by {
            assert(r@[a] == pairs@[a].1 && r@[b] == pairs@[b].1);
        }
    }
    r
}

/// Every tile marked holds a lake site.
pub open spec fn marks_are_sites(
    mp: &MapParameters,
    river: &River,
    q: &TileQuery,
    added: Seq<bool>,
) -> bool {
    forall|i: int| 0 <= i < added.len() && #[trigger] added[i] ==> lake_site(mp, river, q, i)
}

/// The tile across edge `e` of tile `t`, when it is on the map.
pub open spec fn edge_neighbor(mp: &MapParameters, q: &TileQuery, t: int, e: int) -> Option<int> {
    mp.hex_cell(spec_neighbor(q.tiles@[t].hex_position.pair(), mp.orientation, spec_edge_direction(mp.orientation, e)))
}

/// The marks, the number of tiles made lakes and the bounds of the draws made (draw `k`
/// is taken from `0..bounds[k]`; the next one is at position `bounds.len()`) after the
/// neighbors of tile `t` across its first `i` edges are tried, starting from the bounds
/// `bs`: a neighbor that may become a lake ([`spec_can_add_lake`]) does so when a draw
/// from `0..(tiles made lakes so far + 4)` is below 3.
pub open spec fn widen_upto(
    mp: &MapParameters,
    river: &River,
    q: &TileQuery,
    added: Seq<bool>,
    t: int,
    d: Seq<u32>,
    bs: Seq<u32>,
    i: int,
) -> (Seq<bool>, int, Seq<u32>)
    decreases i,
{
    if i <= 0 {
        (added, 0, bs)
    } else {
        let prev = widen_upto(mp, river, q, added, t, d, bs, i - 1);
        match edge_neighbor(mp, q, t, i - 1) {
            None => prev,
            Some(m) => if spec_can_add_lake(mp, river, q, prev.0, m) {
                let b = (prev.1 + 4) as u32;
                if draw_at(d, prev.2.len() as int) < 3 {
                    (prev.0.update(m, true), prev.1 + 1, prev.2.push(b))
                } else {
                    (prev.0, prev.1, prev.2.push(b))
                }
            } else {
                prev
            },
        }
    }
}

/// The marks of the lake tiles, the number of large lakes and the bounds of the draws
/// made (draw `k` is taken from `0..bounds[k]`) after the first `k` tiles of `order`
/// are tried: a tile that may become a lake does so when a draw from `0..25` is 0;
/// while fewer than `large_lake_num` large lakes were made, the lake first widens over
/// its neighbors ([`widen_upto`]) and counts as large when more than two of them
/// joined it.
pub open spec fn lakes_upto(
    mp: &MapParameters,
    river: &River,
    q: &TileQuery,
    large_lake_num: u32,
    order: Seq<usize>,
    d: Seq<u32>,
    k: int,
) -> (Seq<bool>, int, Seq<u32>)
    decreases k,
{
    if k <= 0 {
        (Seq::new(q.tiles.len() as nat, |i: int| false), 0, Seq::empty())
    } else {
        let prev = lakes_upto(mp, river, q, large_lake_num, order, d, k - 1);
        let t = order[k - 1] as int;
        if spec_can_add_lake(mp, river, q, prev.0, t) {
            let pos1 = prev.2.push(25);
            if draw_at(d, prev.2.len() as int) == 0 {
                if prev.1 < large_lake_num {
                    let w = widen_upto(mp, river, q, prev.0, t, d, pos1, 6);
                    (w.0.update(t, true), prev.1 + if w.1 > 2 {
                        1int
                    } else {
                        0int
                    }, w.2)
                } else {
                    (prev.0.update(t, true), prev.1, pos1)
                }
            } else {
                (prev.0, prev.1, pos1)
            }
        } else {
            prev
        }
    }
}

/// Tries to widen the lake begun at tile `index`: each neighbor across the six edges
/// that may become a lake does so when a draw from `0..(lakes so far + 4)` is below 3.
/// Says whether more than two neighbors became lakes.
fn add_more_lake(
    index: usize,
    added: &mut Vec<bool>,
    rng: &mut StdRng,
    river: &River,
    map_parameters: &MapParameters,
    query_tile: &TileQuery,
    Ghost(drawn): Ghost<Seq<u32>>,
    Ghost(bs): Ghost<Seq<u32>>,
) -> (r: (bool, Ghost<(Seq<u32>, Seq<u32>)>))
    requires
        query_tile.well_formed(map_parameters),
        index < query_tile.tiles.len(),
        old(added).len() == query_tile.tiles.len(),
        marks_are_sites(map_parameters, river, query_tile, old(added)@),
        bs.len() == drawn.len(),
    ensures
        final(added).len() == old(added).len(),
        marks_are_sites(map_parameters, river, query_tile, final(added)@),
        forall|i: int| 0 <= i < old(added).len() && old(added)@[i] ==> #[trigger] final(added)@[i],
        extends(r.1@.0, drawn),
        extends(r.1@.1, bs),
        r.1@.1.len() == r.1@.0.len(),
        forall|k: int| drawn.len() <= k < r.1@.0.len() ==> r.1@.0[k] < r.1@.1[k],
        forall|ext: Seq<u32>|
            #[trigger] extends(ext, r.1@.0) ==> {
                let w = widen_upto(map_parameters, river, query_tile, old(added)@, index as int, ext, bs, 6);
                &&& w.0 == final(added)@
                &&& w.2 == r.1@.1
                &&& r.0 == (w.1 > 2)
            },
{
    let mut large_lake: u32 = 0;
    let directions = map_parameters.edge_direction_array();
    assert(query_tile.tiles@[index as int].hex_position.small_pos());
    let position = query_tile.tiles[index].hex_position;
    let ghost added0 = added@;
    let ghost mut d = drawn;
    let ghost mut b = bs;
    proof {
        lemma_extends_refl(drawn);
        lemma_extends_refl(bs);
    }
    let mut e: usize = 0;
    while e < 6
        invariant
            query_tile.well_formed(map_parameters),
            index < query_tile.tiles.len(),
            position == query_tile.tiles@[index as int].hex_position,
            position.small_pos(),
            forall|j: int| 0 <= j < 6 ==> directions@[j] == spec_edge_direction(map_parameters.orientation, j),
            added.len() == query_tile.tiles.len(),
            old(added).len() == query_tile.tiles.len(),
            added0 == old(added)@,
            marks_are_sites(map_parameters, river, query_tile, added@),
            forall|i: int| 0 <= i < old(added).len() && old(added)@[i] ==> #[trigger] added@[i],
            0 <= e <= 6,
            large_lake <= e,
            extends(d, drawn),
            extends(b, bs),
            b.len() == d.len(),
            forall|k: int| drawn.len() <= k < d.len() ==> d[k] < b[k],
            forall|ext: Seq<u32>|
                #[trigger] extends(ext, d) ==> widen_upto(map_parameters, river, query_tile, added0, index as int, ext, bs, e as int)
                    == (added@, large_lake as int, b),
        decreases 6 - e,
    {
        let dir = directions[e];
        assert(spec_edge_index(map_parameters.orientation, dir) == e as int);
        let ghost d_b = d;
        let ghost b_b = b;
        let ghost added_b = added@;
        let ghost large_b = large_lake;
        match position.index_neighbor(map_parameters, dir) {
            Some(m) => {
                if can_add_lake(m, added, river, map_parameters, query_tile) {
                    let bound = large_lake + 4;
                    let roll = draw_below(rng, bound);
                    if roll < 3 {
                        added.set(m, true);
                        large_lake = large_lake + 1;
                    }
                    proof {
                        lemma_extends_one(d, roll);
                        lemma_extends_trans(d.push(roll), d, drawn);
                        lemma_extends_one(b, bound);
                        lemma_extends_trans(b.push(bound), b, bs);
                        assert forall|k: int| drawn.len() <= k < d.push(roll).len() implies d.push(roll)[k] < b.push(bound)[k] by {
                            if k < d.len() {
                                assert(d.push(roll)[k] == d[k]);
                                assert(b.push(bound)[k] == b[k]);
                            }
                        }
                        assert forall|ext: Seq<u32>| #[trigger] extends(ext, d_b.push(roll)) implies widen_upto(
                            map_parameters,
                            river,
                            query_tile,
                            added0,
                            index as int,
                            ext,
                            bs,
                            e + 1,
                        ) == (added@, large_lake as int, b_b.push(bound)) by {
                            lemma_extends_push(ext, d_b, roll);
                            assert(widen_upto(map_parameters, river, query_tile, added0, index as int, ext, bs, e as int)
                                == (added_b, large_b as int, b_b));
                            assert(draw_at(ext, d_b.len() as int) == roll);
                            if roll < 3 {
                                assert(added@ =~= added_b.update(m as int, true));
                            }
                        }
                        d = d.push(roll);
                        b = b.push(bound);
                    }
                }
            },
            None => {},
        }
        e = e + 1;
    }
    (large_lake > 2, Ghost((d, b)))
}

/// Sets lakes on the land: going through the tiles in order of entity id, each tile
/// that may become a lake ([`spec_can_add_lake`]) does so when a draw from `0..25` is 0;
/// while fewer than `large_lake_num` large lakes were made, the lake also tries to widen
/// over its neighbors (see [`add_more_lake`]). Lake tiles become water with lake base
/// terrain and lose their feature.
///
/// Whatever the draws, only tiles that were land without a natural wonder or a river
/// along their edges become lakes, and no other tile changes.
pub fn add_lakes(
    large_lake_num: u32,
    random_number_generator: &mut RandomNumberGenerator,
    river: &River,
    map_parameters: &MapParameters,
    query_tile: &mut TileQuery,
)
    requires
        old(query_tile).well_formed(map_parameters),
    ensures
        final(query_tile).well_formed(map_parameters),
        final(query_tile).tiles.len() == old(query_tile).tiles.len(),
        forall|i: int|
            0 <= i < old(query_tile).tiles.len() ==> #[trigger] final(query_tile).tiles@[i] == old(query_tile).tiles@[i] || (lake_site(map_parameters, river, &*old(query_tile), i) && final(query_tile).tiles@[i] == lake_of(old(query_tile).tiles@[i])),
        exists|order: Seq<usize>, d: Seq<u32>|
            #![trigger entity_sorted(&*old(query_tile), order), lakes_upto(map_parameters, river, &*old(query_tile), large_lake_num, order, d, old(query_tile).tiles.len() as int)]
            {
                &&& entity_sorted(&*old(query_tile), order)
                &&& lakes_upto(
                    map_parameters,
                    river,
                    &*old(query_tile),
                    large_lake_num,
                    order,
                    d,
                    old(query_tile).tiles.len() as int,
                ).2.len() == d.len()
                &&& forall|k: int|
                    0 <= k < d.len() ==> d[k] < lakes_upto(
                        map_parameters,
                        river,
                        &*old(query_tile),
                        large_lake_num,
                        order,
                        d,
                        old(query_tile).tiles.len() as int,
                    ).2[k]
                &&& forall|i: int|
                    0 <= i < old(query_tile).tiles.len() ==> #[trigger] final(query_tile).tiles@[i] == if lakes_upto(
                        map_parameters,
                        river,
                        &*old(query_tile),
                        large_lake_num,
                        order,
                        d,
                        old(query_tile).tiles.len() as int,
                    ).0[i] {
                        lake_of(old(query_tile).tiles@[i])
                    } else {
                        old(query_tile).tiles@[i]
                    }
            },
{
    let n = query_tile.tiles.len();
    let lake_plot_rand: u32 = 25;
    let mut added: Vec<bool> = Vec::new();
    let mut i: usize = 0;
    while i < n
        invariant
            0 <= i <= n,
            added.len() == i,
            forall|j: int| 0 <= j < i ==> !#[trigger] added@[j],
        decreases n - i,
    {
        added.push(false);
        i = i + 1;
    }
    let order = order_by_entity(query_tile);
    let mut num_large_lakes_added: u32 = 0;
    let ghost mut d: Seq<u32> = Seq::empty();
    let ghost mut b: Seq<u32> = Seq::empty();
    proof {
        assert(added@ =~= lakes_upto(map_parameters, river, query_tile, large_lake_num, order@, Seq::<u32>::empty(), 0).0);
    }
    let mut k: usize = 0;
    while k < order.len()
        invariant
            query_tile.well_formed(map_parameters),
            n == query_tile.tiles.len(),
            order.len() == n,
            entity_sorted(query_tile, order@),
            forall|m: int| 0 <= m < order.len() ==> #[trigger] order@[m] < n,
            added.len() == n,
            marks_are_sites(map_parameters, river, query_tile, added@),
            0 <= k <= order.len(),
            num_large_lakes_added <= k,
            lake_plot_rand == 25,
            b.len() == d.len(),
            forall|j: int| 0 <= j < d.len() ==> d[j] < b[j],
            forall|ext: Seq<u32>|
                #[trigger] extends(ext, d) ==> lakes_upto(map_parameters, river, query_tile, large_lake_num, order@, ext, k as int)
                    == (added@, num_large_lakes_added as int, b),
        decreases order.len() - k,
    {
        let t = order[k];
        let ghost d_b = d;
        let ghost b_b = b;
        let ghost added_b = added@;
        let ghost large_b = num_large_lakes_added;
        if can_add_lake(t, &added, river, map_parameters, query_tile) {
            let roll = draw_below(&mut random_number_generator.rng, lake_plot_rand);
            let ghost d1 = d.push(roll);
            let ghost b1 = b.push(25);
            proof {
                lemma_extends_one(d, roll);
            }
            if roll == 0 {
                let ghost mut d2 = d1;
                let ghost mut b2 = b1;
                proof {
                    lemma_extends_refl(d1);
                    lemma_extends_refl(b1);
                }
                if num_large_lakes_added < large_lake_num {
                    let (more, Ghost(dm)) = add_more_lake(
                        t,
                        &mut added,
                        &mut random_number_generator.rng,
                        river,
                        map_parameters,
                        query_tile,
                        Ghost(d1),
                        Ghost(b1),
                    );
                    if more {
                        num_large_lakes_added = num_large_lakes_added + 1;
                    }
                    proof {
                        d2 = dm.0;
                        b2 = dm.1;
                        lemma_extends_trans(d2, d1, d_b);
                        assert forall|j: int| 0 <= j < d2.len() implies d2[j] < b2[j] by {
                            if j < d1.len() {
                                assert(d2.take(d1.len() as int)[j] == d2[j]);
                                assert(b2.take(b1.len() as int)[j] == b2[j]);
                            }
                        }
                    }
                }
                added.set(t, true);
                proof {
                    assert forall|ext: Seq<u32>| #[trigger] extends(ext, d2) implies lakes_upto(
                        map_parameters,
                        river,
                        query_tile,
                        large_lake_num,
                        order@,
                        ext,
                        k + 1,
                    ) == (added@, num_large_lakes_added as int, b2) by {
                        lemma_extends_trans(ext, d2, d1);
                        lemma_extends_push(ext, d_b, roll);
                        assert(draw_at(ext, d_b.len() as int) == 0);
                    }
                    d = d2;
                    b = b2;
                }
            } else {
                proof {
                    assert forall|ext: Seq<u32>| #[trigger] extends(ext, d1) implies lakes_upto(
                        map_parameters,
                        river,
                        query_tile,
                        large_lake_num,
                        order@,
                        ext,
                        k + 1,
                    ) == (added@, num_large_lakes_added as int, b1) by {
                        lemma_extends_push(ext, d_b, roll);
                        assert(draw_at(ext, d_b.len() as int) == roll);
                    }
                    assert forall|j: int| 0 <= j < d1.len() implies d1[j] < b1[j] by {
                        if j < d_b.len() {
                            assert(d1[j] == d_b[j]);
                            assert(b1[j] == b_b[j]);
                        }
                    }
                    d = d1;
                    b = b1;
                }
            }
        }
        k = k + 1;
    }
    let ghost q0 = *query_tile;
    let mut i: usize = 0;
    while i < n
        invariant
            n == query_tile.tiles.len(),
            q0.tiles.len() == n,
            added.len() == n,
            marks_are_sites(map_parameters, river, &q0, added@),
            0 <= i <= n,
            forall|j: int|
                0 <= j < i ==> #[trigger] query_tile.tiles@[j] == if added@[j] {
                    lake_of(q0.tiles@[j])
                } else {
                    q0.tiles@[j]
                },
            forall|j: int| i <= j < n ==> #[trigger] query_tile.tiles@[j] == q0.tiles@[j],
        decreases n - i,
    {
        if added[i] {
            let mut t = query_tile.tiles[i];
            t.terrain_type = TerrainType::Water;
            t.base_terrain = BaseTerrain::Lake;
            t.feature = None;
            query_tile.tiles.set(i, t);
        }
        i = i + 1;
    }
    proof {
        lemma_same_positions_keep_well_formed(map_parameters, &q0, query_tile);
        lemma_extends_refl(d);
        assert(lakes_upto(map_parameters, river, &q0, large_lake_num, order@, d, n as int).0 == added@);
    }
}

/// Tile `t` is water that is not coast (on the map as it stood) and has not grown yet.
pub open spec fn may_grow(q: &TileQuery, grown: Seq<bool>, t: int) -> bool {
    &&& q.tiles@[t].terrain_type == TerrainType::Water
    &&& q.tiles@[t].base_terrain != BaseTerrain::Coast
    &&& !grown[t]
}

/// Some neighbor of tile `t` is coast (on the map as it stood) or has grown already.
pub open spec fn touches_coast(mp: &MapParameters, q: &TileQuery, grown: Seq<bool>, t: int) -> bool {
    exists|m: int|
        0 <= m < q.spec_neighbors(mp, t).len() && (q.tiles@[#[trigger] q.spec_neighbors(mp, t)[m]].base_terrain
            == BaseTerrain::Coast || grown[q.spec_neighbors(mp, t)[m]])
}

/// The grown tiles and the position of the next draw after one chance has been tried on
/// the first `k` tiles of `order`: a tile that may grow and touches the coast draws, and
/// grows when its draw comes up.
pub open spec fn coast_pass(
    mp: &MapParameters,
    q: &TileQuery,
    order: Seq<usize>,
    grown: Seq<bool>,
    d: Seq<bool>,
    pos: int,
    k: int,
) -> (Seq<bool>, int)
    decreases k,
{
    if k <= 0 {
        (grown, pos)
    } else {
        let prev = coast_pass(mp, q, order, grown, d, pos, k - 1);
        let t = order[k - 1] as int;
        if may_grow(q, prev.0, t) && touches_coast(mp, q, prev.0, t) {
            if chance_at(d, prev.1) {
                (prev.0.update(t, true), prev.1 + 1)
            } else {
                (prev.0, prev.1 + 1)
            }
        } else {
            prev
        }
    }
}

/// The grown tiles and the position of the next draw after the first `c` chances have
/// each been tried on every tile of `order`.
pub open spec fn coast_rounds(mp: &MapParameters, q: &TileQuery, order: Seq<usize>, d: Seq<bool>, c: int) -> (
    Seq<bool>,
    int,
)
    decreases c,
{
    if c <= 0 {
        (Seq::new(q.tiles.len() as nat, |i: int| false), 0)
    } else {
        let prev = coast_rounds(mp, q, order, d, c - 1);
        coast_pass(mp, q, order, prev.0, d, prev.1, order.len() as int)
    }
}

/// Whether some neighbor of tile `t` is coast or already grown.
fn touches_coast_at(t: usize, grown: &Vec<bool>, map_parameters: &MapParameters, query_tile: &TileQuery) -> (r: bool)
    requires
        query_tile.well_formed(map_parameters),
        t < query_tile.tiles.len(),
        grown.len() == query_tile.tiles.len(),
    ensures
        r == touches_coast(map_parameters, query_tile, grown@, t as int),
{
    let ns = neighbors_of(t, map_parameters, query_tile);
    let mut touches = false;
    let mut m: usize = 0;
    while m < ns.len()
        invariant
            query_tile.well_formed(map_parameters),
            t < query_tile.tiles.len(),
            grown.len() == query_tile.tiles.len(),
            ns@.len() == query_tile.spec_neighbors(map_parameters, t as int).len(),
            forall|j: int|
                0 <= j < ns.len() ==> #[trigger] ns@[j] as int == query_tile.spec_neighbors(map_parameters, t as int)[j],
            forall|j: int| 0 <= j < ns.len() ==> #[trigger] ns@[j] < query_tile.tiles.len(),
            0 <= m <= ns.len(),
            touches == exists|j: int|
                0 <= j < m && (query_tile.tiles@[#[trigger] query_tile.spec_neighbors(map_parameters, t as int)[j]].base_terrain
                    == BaseTerrain::Coast || grown@[query_tile.spec_neighbors(map_parameters, t as int)[j]]),
        decreases ns.len() - m,
    {
        assert(ns@[m as int] as int == query_tile.spec_neighbors(map_parameters, t as int)[m as int]);
        let u = ns[m];
        if query_tile.tiles[u].base_terrain == BaseTerrain::Coast || grown[u] {
            touches = true;
        }
        m = m + 1;
    }
    touches
}

/// Lets the coast grow out to sea: for each chance in turn, going through the tiles in
/// order of entity id, a water tile that is not coast (on the map as it stood) and not
/// grown yet becomes coast when one of its neighbors is coast or already grown and the
/// chance comes up.
///
/// Whatever the draws, only water tiles that were not coast become coast, and no other
/// tile changes; which ones do is [`coast_rounds`] of the draws that came up.
pub fn expand_coast(
    coast_expand_chance: &Vec<Bernoulli>,
    random_number_generator: &mut RandomNumberGenerator,
    map_parameters: &MapParameters,
    query_tile: &mut TileQuery,
)
    requires
        old(query_tile).well_formed(map_parameters),
    ensures
        final(query_tile).well_formed(map_parameters),
        final(query_tile).tiles.len() == old(query_tile).tiles.len(),
        forall|i: int|
            0 <= i < old(query_tile).tiles.len() ==> #[trigger] final(query_tile).tiles@[i] == old(query_tile).tiles@[i] || (old(query_tile).tiles@[i].terrain_type == TerrainType::Water && old(query_tile).tiles@[i].base_terrain != BaseTerrain::Coast && final(query_tile).tiles@[i]
                == with_base(old(query_tile).tiles@[i], BaseTerrain::Coast)),
        exists|order: Seq<usize>, d: Seq<bool>|
            #![trigger entity_sorted(&*old(query_tile), order), coast_rounds(map_parameters, &*old(query_tile), order, d, coast_expand_chance.len() as int)]
            {
                &&& entity_sorted(&*old(query_tile), order)
                &&& forall|i: int|
                    0 <= i < old(query_tile).tiles.len() ==> #[trigger] final(query_tile).tiles@[i] == if coast_rounds(
                        map_parameters,
                        &*old(query_tile),
                        order,
                        d,
                        coast_expand_chance.len() as int,
                    ).0[i] {
                        with_base(old(query_tile).tiles@[i], BaseTerrain::Coast)
                    } else {
                        old(query_tile).tiles@[i]
                    }
            },
{
    let n = query_tile.tiles.len();
    let mut grown: Vec<bool> = Vec::new();
    let mut bases: Vec<BaseTerrain> = Vec::new();
    let mut i: usize = 0;
    while i < n
        invariant
            0 <= i <= n,
            grown.len() == i,
            bases.len() == i,
            forall|j: int| 0 <= j < i ==> !#[trigger] grown@[j],
            forall|j: int| 0 <= j < i ==> #[trigger] bases@[j] == BaseTerrain::Coast,
        decreases n - i,
    {
        grown.push(false);
        bases.push(BaseTerrain::Coast);
        i = i + 1;
    }
    let order = order_by_entity(query_tile);
    let ghost mut d: Seq<bool> = Seq::empty();
    proof {
        assert(grown@ =~= coast_rounds(map_parameters, query_tile, order@, Seq::<bool>::empty(), 0).0);
    }
    let mut c: usize = 0;
    while c < coast_expand_chance.len()
        invariant
            query_tile.well_formed(map_parameters),
            n == query_tile.tiles.len(),
            order.len() == n,
            entity_sorted(query_tile, order@),
            forall|m: int| 0 <= m < order.len() ==> #[trigger] order@[m] < n,
            grown.len() == n,
            bases.len() == n,
            forall|j: int| 0 <= j < n ==> #[trigger] bases@[j] == BaseTerrain::Coast,
            forall|j: int|
                0 <= j < n && #[trigger] grown@[j] ==> query_tile.tiles@[j].terrain_type
                    == TerrainType::Water && query_tile.tiles@[j].base_terrain != BaseTerrain::Coast,
            0 <= c <= coast_expand_chance.len(),
            forall|ext: Seq<bool>|
                #[trigger] extends(ext, d) ==> coast_rounds(map_parameters, query_tile, order@, ext, c as int)
                    == (grown@, d.len() as int),
        decreases coast_expand_chance.len() - c,
    {
        let chance = &coast_expand_chance[c];
        let ghost d0 = d;
        let ghost g0 = grown@;
        proof {
            lemma_extends_refl(d);
        }
        let mut k: usize = 0;
        while k < order.len()
            invariant
                query_tile.well_formed(map_parameters),
                n == query_tile.tiles.len(),
                order.len() == n,
                forall|m: int| 0 <= m < order.len() ==> #[trigger] order@[m] < n,
                grown.len() == n,
                forall|j: int|
                    0 <= j < n && #[trigger] grown@[j] ==> query_tile.tiles@[j].terrain_type
                        == TerrainType::Water && query_tile.tiles@[j].base_terrain != BaseTerrain::Coast,
                0 <= k <= order.len(),
                extends(d, d0),
                forall|ext: Seq<bool>|
                    #[trigger] extends(ext, d) ==> coast_pass(map_parameters, query_tile, order@, g0, ext, d0.len() as int, k as int)
                        == (grown@, d.len() as int),
            decreases order.len() - k,
        {
            let t = order[k];
            let ghost d_b = d;
            let ghost grown_b = grown@;
            let tile = query_tile.tiles[t];
            if tile.terrain_type == TerrainType::Water && tile.base_terrain != BaseTerrain::Coast && !grown[t] {
                if touches_coast_at(t, &grown, map_parameters, query_tile) {
                    let up = draw_chance(chance, &mut random_number_generator.rng);
                    if up {
                        grown.set(t, true);
                    }
                    proof {
                        lemma_extends_one(d, up);
                        lemma_extends_trans(d.push(up), d, d0);
                        assert forall|ext: Seq<bool>| #[trigger] extends(ext, d_b.push(up)) implies coast_pass(
                            map_parameters,
                            query_tile,
                            order@,
                            g0,
                            ext,
                            d0.len() as int,
                            k + 1,
                        ) == (grown@, (d_b.len() + 1) as int) by {
                            lemma_extends_push(ext, d_b, up);
                            assert(chance_at(ext, d_b.len() as int) == up);
                            if up {
                                assert(grown@ =~= grown_b.update(t as int, true));
                            }
                        }
                        d = d.push(up);
                    }
                }
            }
            k = k + 1;
        }
        proof {
            assert forall|ext: Seq<bool>| #[trigger] extends(ext, d) implies coast_rounds(
                map_parameters,
                query_tile,
                order@,
                ext,
                c + 1,
            ) == (grown@, d.len() as int) by {
                lemma_extends_trans(ext, d, d0);
            }
        }
        c = c + 1;
    }
    let ghost q0 = *query_tile;
    set_bases(query_tile, &grown, &bases);
    proof {
        lemma_same_positions_keep_well_formed(map_parameters, &q0, query_tile);
        lemma_extends_refl(d);
        assert(coast_rounds(map_parameters, &q0, order@, d, coast_expand_chance.len() as int).0 == grown@);
    }
}


/// On a map laid out by [`generate_empty_map`], the position of tile `i` leads back to
/// `i`: it is small and names tile `i`, so [`HexPosition::index`] gives back `i` and
/// [`HexPosition::entity`] the tile's entity.
pub proof fn law_empty_map_positions_lead_back(mp: &MapParameters, entity: u64, i: int)
    requires
        mp.well_formed(),
        mp.width <= 0x100_0000,
        mp.height <= 0x100_0000,
        0 <= i < mp.tile_count(),
    ensures
        empty_tile(mp, entity, i).hex_position.small_pos(),
        mp.hex_cell(empty_tile(mp, entity, i).hex_position.pair()) == Some(i),
{
    let w = mp.width as int;
    let hgt = mp.height as int;
    let col = i % w;
    let row = i / w;
    assert(0 <= col < w && i == col + row * w) by (nonlinear_arith)
        requires
            w > 0,
            col == i % w,
            row == i / w,
            i >= 0,
    ;
    assert(0 <= row < hgt) by (nonlinear_arith)
        requires
            w > 0,
            hgt > 0,
            row == i / w,
            0 <= i < w * hgt,
    ;
    law_offset_hex_roundtrip(col, row, mp.orientation, mp.offset);
    let h = spec_offset_to_hex(col, row, mp.orientation, mp.offset);
    let sg = offset_sign(mp.offset);
    assert(-1 <= sg <= 1);
    assert(0 <= row % 2 <= 1 && 0 <= col % 2 <= 1);
    let half_r = (row + sg * (row % 2)) / 2;
    let half_c = (col + sg * (col % 2)) / 2;
    assert(-1 <= half_r <= row && -1 <= half_c <= col) by (nonlinear_arith)
        requires
            -1 <= sg <= 1,
            0 <= row % 2 <= 1,
            0 <= col % 2 <= 1,
            row >= 0,
            col >= 0,
            half_r == (row + sg * (row % 2)) / 2,
            half_c == (col + sg * (col % 2)) / 2,
    ;
    assert(small(h.0) && small(h.1));
    let p = empty_tile(mp, entity, i).hex_position;
    assert(p.pair() == h);
    assert(spec_hex_to_offset(h.0, h.1, mp.orientation, mp.offset) == (col, row));
    assert(mp.spec_normalize((col, row)) == Some((col, row))) by {
        if mp.wrap_x {
            assert(col % w == col) by (nonlinear_arith)
                requires
                    0 <= col < w,
            ;
        }
        if mp.wrap_y {
            assert(row % hgt == row) by (nonlinear_arith)
                requires
                    0 <= row < hgt,
            ;
        }
    }
}

} // verus!
