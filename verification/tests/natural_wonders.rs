use civ_remastered::hex::{Hex, HexOrientation, HexPosition, MapParameters, Offset};
use civ_remastered::map_gen::RandomNumberGenerator;
use civ_remastered::natural_wonder::{generate_natural_wonder, TileFilter, WonderCondition, WonderRule, WonderShape};
use civ_remastered::terrain::{BaseTerrain, NaturalWonder, TerrainType};
use civ_remastered::tile_query::{River, TileQuery, TileQueryItem};
use rand::rngs::StdRng;
use rand::SeedableRng;

fn map(width: u32, height: u32) -> MapParameters {
    MapParameters { width, height, orientation: HexOrientation::Pointy, offset: Offset::Odd, wrap_x: false, wrap_y: false }
}

fn query(mp: &MapParameters, terrain: &[TerrainType]) -> TileQuery {
    let mut tiles = Vec::new();
    for i in 0..(mp.width * mp.height) as usize {
        let c = mp.index_to_offset_coordinate(i);
        let h = Hex::from_offset_coordinate(c, mp.offset, mp.orientation);
        tiles.push(TileQueryItem {
            entity: 100 + i as u64,
            hex_position: HexPosition([h.x, h.y]),
            terrain_type: terrain[i],
            base_terrain: if terrain[i] == TerrainType::Water { BaseTerrain::Coast } else { BaseTerrain::Grassland },
            feature: None,
            natural_wonder: None,
            area_id: -1,
        });
    }
    TileQuery { tiles }
}

fn single(on: TerrainType, into: Option<TerrainType>, conditions: Vec<WonderCondition>) -> WonderRule {
    WonderRule {
        shape: WonderShape::Single,
        is_fresh_water: false,
        occurs_on_type: vec![on],
        occurs_on_base: vec![BaseTerrain::Grassland],
        turns_into_type: into,
        turns_into_base: None,
        conditions,
    }
}

fn rng(seed: u64) -> RandomNumberGenerator {
    RandomNumberGenerator { rng: StdRng::seed_from_u64(seed) }
}

fn wonder_tiles(q: &TileQuery, w: usize) -> Vec<usize> {
    (0..q.tiles.len()).filter(|&i| q.tiles[i].natural_wonder == Some(NaturalWonder(w))).collect()
}

use TerrainType::{Flatland as F, Hill as H, Water as W};

#[test]
fn a_wonder_lands_on_a_suitable_tile_and_takes_its_terrain() {
    let mp = map(4, 1);
    let before = query(&mp, &[F, F, W, F]);
    for seed in 0..8 {
        let mut q = before.clone();
        let rules = vec![single(F, Some(TerrainType::Mountain), vec![])];
        generate_natural_wonder(&rules, 5, &mut rng(seed), &River(vec![]), &mp, &mut q);
        let at = wonder_tiles(&q, 0);
        assert_eq!(at.len(), 1);
        let c = at[0];
        assert_eq!(before.tiles[c].terrain_type, F);
        assert_eq!(q.tiles[c].terrain_type, TerrainType::Mountain);
        for i in 0..4 {
            if i != c {
                assert_eq!(format!("{:?}", q.tiles[i]), format!("{:?}", before.tiles[i]));
            }
        }
    }
}

#[test]
fn a_wonder_without_a_suitable_tile_is_not_laid() {
    let mp = map(4, 1);
    let before = query(&mp, &[F, F, W, F]);
    let mut q = before.clone();
    let rules = vec![single(H, None, vec![])];
    generate_natural_wonder(&rules, 5, &mut rng(1), &River(vec![]), &mp, &mut q);
    assert_eq!(format!("{:?}", q.tiles), format!("{:?}", before.tiles));
}

#[test]
fn one_wonder_more_than_the_number_asked_may_be_laid() {
    let mp = map(5, 1);
    let before = query(&mp, &[F, F, F, F, F]);
    let rules = vec![single(F, None, vec![]), single(F, None, vec![])];
    let mut q = before.clone();
    generate_natural_wonder(&rules, 0, &mut rng(3), &River(vec![]), &mp, &mut q);
    assert_eq!(wonder_tiles(&q, 0).len() + wonder_tiles(&q, 1).len(), 1);
    let mut q = before.clone();
    generate_natural_wonder(&rules, 1, &mut rng(3), &River(vec![]), &mp, &mut q);
    assert_eq!(wonder_tiles(&q, 0).len(), 1);
    assert_eq!(wonder_tiles(&q, 1).len(), 1);
    assert_ne!(wonder_tiles(&q, 0), wonder_tiles(&q, 1));
}

#[test]
fn the_rock_raises_its_land_neighbors_and_coasts_its_water() {
    let mp = map(3, 1);
    let before = query(&mp, &[F, H, W]);
    let mut q = before.clone();
    let mut rule = single(H, None, vec![]);
    rule.shape = WonderShape::RockOfGibraltar;
    generate_natural_wonder(&vec![rule], 3, &mut rng(7), &River(vec![]), &mp, &mut q);
    assert_eq!(wonder_tiles(&q, 0), vec![1]);
    assert_eq!(q.tiles[1].terrain_type, F);
    assert_eq!(q.tiles[1].base_terrain, BaseTerrain::Grassland);
    assert_eq!(q.tiles[0].terrain_type, TerrainType::Mountain);
    assert_eq!(q.tiles[2].terrain_type, W);
    assert_eq!(q.tiles[2].base_terrain, BaseTerrain::Coast);
}

#[test]
fn an_adjacency_condition_picks_the_tile_next_to_water() {
    let mp = map(3, 1);
    let before = query(&mp, &[F, F, W]);
    for seed in 0..6 {
        let mut q = before.clone();
        let rules = vec![single(F, None, vec![WonderCondition::AdjacentExactly(1, TileFilter::Terrain(W))])];
        generate_natural_wonder(&rules, 2, &mut rng(seed), &River(vec![]), &mp, &mut q);
        assert_eq!(wonder_tiles(&q, 0), vec![1]);
    }
}

#[test]
fn a_landmass_condition_picks_the_largest_landmass() {
    let mp = map(4, 1);
    let mut before = query(&mp, &[F, F, W, F]);
    before.tiles[0].area_id = 5;
    before.tiles[1].area_id = 5;
    before.tiles[3].area_id = 2;
    for seed in 0..6 {
        let mut q = before.clone();
        let rules = vec![single(F, None, vec![WonderCondition::NotOnLargestLandmasses(1)])];
        generate_natural_wonder(&rules, 2, &mut rng(seed), &River(vec![]), &mp, &mut q);
        assert_eq!(wonder_tiles(&q, 0), vec![3]);
        let mut q = before.clone();
        let rules = vec![single(F, None, vec![WonderCondition::OnLargestLandmasses(1)])];
        generate_natural_wonder(&rules, 2, &mut rng(seed), &River(vec![]), &mp, &mut q);
        let at = wonder_tiles(&q, 0);
        assert_eq!(at.len(), 1);
        assert!(at[0] == 0 || at[0] == 1);
    }
}

#[test]
fn the_reef_takes_two_tiles_in_open_sea() {
    let mp = map(6, 6);
    let before = query(&mp, &[W; 36]);
    let mut q = before.clone();
    let rule = WonderRule {
        shape: WonderShape::GreatBarrierReef,
        is_fresh_water: false,
        occurs_on_type: vec![],
        occurs_on_base: vec![],
        turns_into_type: None,
        turns_into_base: None,
        conditions: vec![],
    };
    generate_natural_wonder(&vec![rule], 1, &mut rng(11), &River(vec![]), &mp, &mut q);
    let at = wonder_tiles(&q, 0);
    assert_eq!(at.len(), 2);
    for i in 0..36 {
        assert_eq!(q.tiles[i].terrain_type, W);
        assert_eq!(q.tiles[i].base_terrain, BaseTerrain::Coast);
    }
}
