use civ_remastered::area::{recalculate_areas, AreaIdAndSize};
use civ_remastered::hex::{Direction, Hex, HexOrientation, HexPosition, MapParameters, Offset};
use civ_remastered::map_gen::{
    add_lakes, can_add_lake, expand_coast, generate_coast_and_ocean, generate_lake, regenerate_coast,
    RandomNumberGenerator,
};
use civ_remastered::terrain::{BaseTerrain, NaturalWonder, TerrainType};
use civ_remastered::tile_query::{River, TileQuery, TileQueryItem};
use rand::distributions::Bernoulli;
use rand::rngs::StdRng;
use rand::SeedableRng;
use std::collections::BTreeMap;

fn map(width: u32, height: u32) -> MapParameters {
    MapParameters { width, height, orientation: HexOrientation::Pointy, offset: Offset::Odd, wrap_x: false, wrap_y: false }
}

fn query(mp: &MapParameters, terrain: &[TerrainType]) -> TileQuery {
    let mut tiles = Vec::new();
    for i in 0..(mp.width * mp.height) as usize {
        let c = mp.index_to_offset_coordinate(i);
        let h = Hex::from_offset_coordinate(c, mp.offset, mp.orientation);
        tiles.push(TileQueryItem {
            entity: 100 + i as u64,
            hex_position: HexPosition([h.x, h.y]),
            terrain_type: terrain[i],
            base_terrain: if terrain[i] == TerrainType::Water { BaseTerrain::Ocean } else { BaseTerrain::Grassland },
            feature: None,
            natural_wonder: None,
            area_id: -1,
        });
    }
    TileQuery { tiles }
}

use TerrainType::{Flatland as F, Hill as H, Mountain as M, Water as W};

#[test]
fn coast_lines_the_land() {
    let mp = map(4, 1);
    let mut q = query(&mp, &[W, W, F, W]);
    generate_coast_and_ocean(&mp, &mut q);
    let bases: Vec<BaseTerrain> = q.tiles.iter().map(|t| t.base_terrain).collect();
    assert_eq!(bases, vec![BaseTerrain::Ocean, BaseTerrain::Coast, BaseTerrain::Grassland, BaseTerrain::Coast]);
}

#[test]
fn small_water_areas_become_lakes() {
    let mp = map(5, 1);
    let mut q = query(&mp, &[W, F, W, W, W]);
    q.tiles[0].area_id = 1;
    q.tiles[2].area_id = 2;
    q.tiles[3].area_id = 2;
    q.tiles[4].area_id = 2;
    generate_lake(2, &mp, &mut q);
    assert_eq!(q.tiles[0].base_terrain, BaseTerrain::Lake);
    assert_eq!(q.tiles[1].base_terrain, BaseTerrain::Grassland);
    assert_eq!(q.tiles[2].base_terrain, BaseTerrain::Ocean);
    generate_lake(3, &mp, &mut q);
    assert_eq!(q.tiles[3].base_terrain, BaseTerrain::Lake);
}

#[test]
fn water_around_a_land_wonder_is_redrawn() {
    let mp = map(5, 1);
    let mut q = query(&mp, &[W, F, W, W, F]);
    q.tiles[1].natural_wonder = Some(NaturalWonder(0));
    q.tiles[3].base_terrain = BaseTerrain::Lake;
    regenerate_coast(&mp, &mut q);
    // tile 0 touches no lake: coast; tile 2 touches the lake at 3: lake; tile 3 is no neighbor of the wonder
    assert_eq!(q.tiles[0].base_terrain, BaseTerrain::Coast);
    assert_eq!(q.tiles[2].base_terrain, BaseTerrain::Lake);
    assert_eq!(q.tiles[3].base_terrain, BaseTerrain::Lake);
    assert_eq!(q.tiles[4].base_terrain, BaseTerrain::Grassland);
}

#[test]
fn where_a_lake_may_go() {
    let mp = map(5, 1);
    let q = query(&mp, &[F, F, F, W, F]);
    let none = vec![false; 5];
    let river = River(vec![]);
    assert!(can_add_lake(1, &none, &river, &mp, &q));
    assert!(!can_add_lake(2, &none, &river, &mp, &q));
    assert!(!can_add_lake(3, &none, &river, &mp, &q));
    let mut added = none.clone();
    added[0] = true;
    assert!(!can_add_lake(1, &added, &river, &mp, &q));
    let by_river = River(vec![vec![(1, Direction::South)]]);
    assert!(!can_add_lake(1, &none, &by_river, &mp, &q));
    let mut wonder = q.clone();
    wonder.tiles[2].natural_wonder = Some(NaturalWonder(1));
    assert!(!can_add_lake(1, &none, &river, &mp, &wonder));
}

#[test]
fn lakes_only_replace_plain_land() {
    let mp = map(6, 5);
    let terrain: Vec<TerrainType> = (0..30).map(|i| if i % 7 == 3 { W } else { F }).collect();
    for seed in 0..20u64 {
        let before = query(&mp, &terrain);
        let mut q = before.clone();
        let mut rng = RandomNumberGenerator { rng: StdRng::seed_from_u64(seed) };
        add_lakes(2, &mut rng, &River(vec![]), &mp, &mut q);
        for i in 0..30 {
            let (a, b) = (before.tiles[i], q.tiles[i]);
            if a.terrain_type != b.terrain_type || a.base_terrain != b.base_terrain {
                assert_eq!(a.terrain_type, F);
                assert_eq!(b.terrain_type, W);
                assert_eq!(b.base_terrain, BaseTerrain::Lake);
            }
        }
    }
}

#[test]
fn coast_grows_only_over_open_water() {
    let mp = map(6, 1);
    let mut q = query(&mp, &[F, W, W, W, W, W]);
    q.tiles[1].base_terrain = BaseTerrain::Coast;
    let chances = vec![Bernoulli::new(1.0).unwrap(), Bernoulli::new(1.0).unwrap()];
    let mut rng = RandomNumberGenerator { rng: StdRng::seed_from_u64(3) };
    expand_coast(&chances, &mut rng, &mp, &mut q);
    let coast: Vec<bool> = q.tiles.iter().map(|t| t.base_terrain == BaseTerrain::Coast).collect();
    // with certain chances, the coast spreads tile by tile in entity order within each pass
    assert_eq!(coast, vec![false, true, true, true, true, true]);
    let mut never = query(&mp, &[F, W, W, W, W, W]);
    never.tiles[1].base_terrain = BaseTerrain::Coast;
    let no = vec![Bernoulli::new(0.0).unwrap()];
    expand_coast(&no, &mut rng, &mp, &mut never);
    assert_eq!(never.tiles[2].base_terrain, BaseTerrain::Ocean);
}

#[test]
fn areas_are_recalculated_per_kind_of_ground() {
    let mp = map(5, 1);
    let mut q = query(&mp, &[W, W, F, H, M]);
    q.tiles[0].area_id = 3;
    q.tiles[4].area_id = 8;
    let mut sizes = AreaIdAndSize(BTreeMap::new());
    sizes.0.insert(3, 40);
    recalculate_areas(&mp, &mut sizes, &mut q);
    let ids: Vec<i32> = q.tiles.iter().map(|t| t.area_id).collect();
    // every pass numbers from 9, one more than the largest old id
    assert_eq!(ids, vec![9, 9, 9, 9, 9]);
    assert_eq!(sizes.0.len(), 1);
    // the mountain pass came last: its area of one tile holds id 9
    assert_eq!(sizes.0.get(&9), Some(&1));
}

#[test]
fn separate_water_areas_get_separate_ids() {
    let mp = map(5, 1);
    let mut q = query(&mp, &[W, F, W, M, W]);
    let mut sizes = AreaIdAndSize(BTreeMap::new());
    recalculate_areas(&mp, &mut sizes, &mut q);
    let ids: Vec<i32> = q.tiles.iter().map(|t| t.area_id).collect();
    assert_eq!(ids, vec![0, 0, 1, 0, 2]);
    assert_eq!(sizes.0.get(&0), Some(&1));
    assert_eq!(sizes.0.get(&1), Some(&1));
    assert_eq!(sizes.0.get(&2), Some(&1));
}

#[test]
fn areas_are_worked_out_on_a_map_wrapping_over_an_odd_height() {
    let mp = MapParameters { width: 2, height: 3, orientation: HexOrientation::Pointy, offset: Offset::Odd, wrap_x: false, wrap_y: true };
    let mut q = query(&mp, &[W, W, W, W, W, W]);
    let mut sizes = AreaIdAndSize(BTreeMap::new());
    recalculate_areas(&mp, &mut sizes, &mut q);
    let total: u32 = sizes.0.values().sum();
    assert_eq!(total, 6);
    for t in &q.tiles {
        assert!(sizes.0.contains_key(&t.area_id));
    }
}
