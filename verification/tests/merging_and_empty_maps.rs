use civ_remastered::area::{bfs, dfs, AreaIdAndSize};
use civ_remastered::area_merge::reassign_area_id;
use civ_remastered::city::{food_needed_for_population, process_city_expansion, City};
use civ_remastered::hex::{Hex, HexOrientation, HexPosition, MapParameters, Offset};
use civ_remastered::map_gen::generate_empty_map;
use civ_remastered::terrain::{BaseTerrain, TerrainType};
use civ_remastered::tile_query::{TileQuery, TileQueryItem};
use std::collections::BTreeMap;

fn row(width: u32) -> MapParameters {
    MapParameters { width, height: 1, orientation: HexOrientation::Pointy, offset: Offset::Odd, wrap_x: false, wrap_y: false }
}

fn row_query(mp: &MapParameters, terrain: &[TerrainType], ids: &[i32]) -> TileQuery {
    let mut tiles = Vec::new();
    for i in 0..mp.width as usize {
        let c = mp.index_to_offset_coordinate(i);
        let h = Hex::from_offset_coordinate(c, mp.offset, mp.orientation);
        tiles.push(TileQueryItem {
            entity: 100 + i as u64,
            hex_position: HexPosition([h.x, h.y]),
            terrain_type: terrain[i],
            base_terrain: BaseTerrain::Grassland,
            feature: None,
            natural_wonder: None,
            area_id: ids[i],
        });
    }
    TileQuery { tiles }
}

fn sizes(pairs: &[(i32, u32)]) -> AreaIdAndSize {
    let mut m = BTreeMap::new();
    for &(k, v) in pairs {
        m.insert(k, v);
    }
    AreaIdAndSize(m)
}

use TerrainType::{Flatland as F, Water as W};

#[test]
fn dfs_numbers_like_bfs() {
    let adj: Vec<Vec<usize>> = vec![vec![1], vec![0, 2], vec![1, 4], vec![], vec![2]];
    let in_area = vec![true, true, true, true, false];
    let read_ids = vec![-1, -1, -1, -1, 5];
    let mut pending = vec![-1, -1, -1, -1, 9];
    let mut s = AreaIdAndSize(BTreeMap::new());
    s.0.insert(2, 40);
    dfs(&read_ids, &mut pending, &mut s, &in_area, &adj);
    assert_eq!(pending, vec![6, 6, 6, 7, 9]);
    assert_eq!(s.0.get(&6), Some(&3));
    assert_eq!(s.0.get(&7), Some(&1));
    assert_eq!(s.0.get(&2), Some(&40));
    let mut pending_b = vec![-1, -1, -1, -1, 9];
    let mut s_b = AreaIdAndSize(BTreeMap::new());
    s_b.0.insert(2, 40);
    bfs(&read_ids, &mut pending_b, &mut s_b, &in_area, &adj);
    assert_eq!(pending, pending_b);
    assert_eq!(s.0, s_b.0);
}

#[test]
fn dfs_fills_a_ring() {
    // a ring of six tiles: one area, whichever way it is walked
    let adj: Vec<Vec<usize>> = vec![vec![1, 5], vec![0, 2], vec![1, 3], vec![2, 4], vec![3, 5], vec![4, 0]];
    let in_area = vec![true; 6];
    let read_ids = vec![0; 6];
    let mut pending = vec![-1; 6];
    let mut s = AreaIdAndSize(BTreeMap::new());
    dfs(&read_ids, &mut pending, &mut s, &in_area, &adj);
    assert_eq!(pending, vec![1; 6]);
    assert_eq!(s.0.get(&1), Some(&6));
}

#[test]
fn small_areas_join_a_large_neighbor_in_id_order() {
    let mp = row(10);
    // area 1: tiles 0-6 (7 tiles), area 2: tiles 7-8, area 3: tile 9
    let mut q = row_query(&mp, &[F; 10], &[1, 1, 1, 1, 1, 1, 1, 2, 2, 3]);
    let mut s = sizes(&[(1, 7), (2, 2), (3, 1)]);
    reassign_area_id(&mp, &mut s, &mut q);
    // area 2 joins area 1 (9 tiles); area 3 then borders a tile now in area 1
    let ids: Vec<i32> = q.tiles.iter().map(|t| t.area_id).collect();
    assert_eq!(ids, vec![1; 10]);
    assert_eq!(s.0.len(), 1);
    assert_eq!(s.0.get(&1), Some(&10));
}

#[test]
fn equal_neighbors_are_told_apart_by_entity() {
    let mp = row(15);
    let mut ids = vec![1; 7];
    ids.push(2);
    ids.extend(vec![3; 7]);
    let mut q = row_query(&mp, &[F; 15], &ids);
    let mut s = sizes(&[(1, 7), (2, 1), (3, 7)]);
    reassign_area_id(&mp, &mut s, &mut q);
    // tile 7 borders tile 6 (entity 106, area 1) and tile 8 (entity 108, area 3)
    assert_eq!(q.tiles[7].area_id, 3);
    assert_eq!(s.0.get(&3), Some(&8));
    assert_eq!(s.0.get(&1), Some(&7));
    assert_eq!(s.0.get(&2), None);

    let mut q2 = row_query(&mp, &[F; 15], &ids);
    q2.tiles[6].entity = 500;
    let mut s2 = sizes(&[(1, 7), (2, 1), (3, 7)]);
    reassign_area_id(&mp, &mut s2, &mut q2);
    assert_eq!(q2.tiles[7].area_id, 1);
    assert_eq!(s2.0.get(&1), Some(&8));
}

#[test]
fn small_areas_stay_without_a_large_neighbor_of_their_kind() {
    let mp = row(10);
    let mut terrain = [F; 10];
    terrain[7] = W;
    // tile 7 is water between land; area 2 (tiles 8-9) only borders water
    let mut q = row_query(&mp, &terrain, &[1, 1, 1, 1, 1, 1, 1, 3, 2, 2]);
    let mut s = sizes(&[(1, 7), (2, 2), (3, 1)]);
    reassign_area_id(&mp, &mut s, &mut q);
    let ids: Vec<i32> = q.tiles.iter().map(|t| t.area_id).collect();
    assert_eq!(ids, vec![1, 1, 1, 1, 1, 1, 1, 3, 2, 2]);
    assert_eq!(s.0.len(), 3);
}

#[test]
fn small_areas_need_a_neighbor_of_the_minimum_size() {
    let mp = row(8);
    // area 1 has 6 tiles: too small to take area 2 in
    let mut q = row_query(&mp, &[F; 8], &[1, 1, 1, 1, 1, 1, 2, 2]);
    let mut s = sizes(&[(1, 6), (2, 2)]);
    reassign_area_id(&mp, &mut s, &mut q);
    assert_eq!(q.tiles[7].area_id, 2);
    assert_eq!(s.0.get(&2), Some(&2));
    assert_eq!(s.0.get(&1), Some(&6));
}

#[test]
fn empty_map_is_open_ocean() {
    let mp = MapParameters { width: 3, height: 2, orientation: HexOrientation::Flat, offset: Offset::Even, wrap_x: false, wrap_y: false };
    let (storage, q) = generate_empty_map(&mp, vec![10, 11, 12, 13, 14, 15]);
    assert_eq!(storage.tiles, vec![10, 11, 12, 13, 14, 15]);
    assert_eq!(q.tiles.len(), 6);
    for i in 0..6 {
        let t = &q.tiles[i];
        assert_eq!(t.entity, 10 + i as u64);
        assert_eq!(t.terrain_type, TerrainType::Water);
        assert_eq!(t.base_terrain, BaseTerrain::Ocean);
        assert_eq!(t.feature, None);
        assert_eq!(t.natural_wonder, None);
        assert_eq!(t.area_id, -1);
        assert_eq!(t.hex_position.index(&mp), i);
    }
    // (column 1, row 0) under flat even offset lies at axial (1, -1)
    assert_eq!(q.tiles[1].hex_position, HexPosition([1, -1]));
    assert_eq!(q.tiles[3].hex_position, HexPosition([0, 1]));
}

#[test]
fn food_needed_rises_by_at_least_eight_per_citizen() {
    let mut last = food_needed_for_population(1);
    for p in 2..200u32 {
        let f = food_needed_for_population(p);
        assert!(f >= last + 8);
        last = f;
    }
}

#[test]
fn expansion_keeps_the_tiles_owned_before() {
    let mut c = City::new("Border".to_string(), 3);
    c.owned_tiles = vec![4, 5, 6];
    let rings: Vec<Vec<(usize, TerrainType)>> = (0..6)
        .map(|r| vec![(10 * r, TerrainType::Hill), (10 * r + 2, TerrainType::Mountain)])
        .collect();
    process_city_expansion(&mut c, 500, &rings);
    assert_eq!(&c.owned_tiles[..3], &[4, 5, 6]);
    assert!(c.border_radius >= 1 && c.border_radius <= c.max_border_radius);
}
