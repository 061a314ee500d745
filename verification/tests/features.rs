use civ_remastered::features::{add_features, Rainfall};
use civ_remastered::hex::{Direction, Hex, HexOrientation, HexPosition, MapParameters, Offset};
use civ_remastered::map_gen::RandomNumberGenerator;
use civ_remastered::terrain::{BaseTerrain, Feature, FeatureInfo, NaturalWonderInfo, Ruleset, TerrainType};
use civ_remastered::tile_query::{River, TileQuery, TileQueryItem};
use rand::rngs::StdRng;
use rand::SeedableRng;

// features in the order of the rules' table
const FOREST: usize = 0;
const JUNGLE: usize = 1;
const MARSH: usize = 2;
const FLOODPLAIN: usize = 3;
const OASIS: usize = 4;
const ICE: usize = 5;

fn ruleset(allowed: &[usize]) -> Ruleset {
    let mut features = Vec::new();
    for i in 0..8 {
        let on = allowed.contains(&i);
        let (types, bases) = if !on {
            (vec![], vec![])
        } else if i == ICE {
            (vec![TerrainType::Water], vec![BaseTerrain::Ocean])
        } else {
            (vec![TerrainType::Flatland, TerrainType::Hill], vec![BaseTerrain::Grassland, BaseTerrain::Plain])
        };
        features.push(FeatureInfo { impassable: false, occurs_on_type: types, occurs_on_base: bases });
    }
    Ruleset { features, natural_wonders: vec![NaturalWonderInfo { impassable: true }] }
}

fn map(width: u32, height: u32) -> MapParameters {
    MapParameters { width, height, orientation: HexOrientation::Pointy, offset: Offset::Odd, wrap_x: false, wrap_y: false }
}

fn query(mp: &MapParameters, terrain: &[TerrainType]) -> TileQuery {
    let mut tiles = Vec::new();
    for i in 0..(mp.width * mp.height) as usize {
        let c = mp.index_to_offset_coordinate(i);
        let h = Hex::from_offset_coordinate(c, mp.offset, mp.orientation);
        tiles.push(TileQueryItem {
            entity: i as u64,
            hex_position: HexPosition([h.x, h.y]),
            terrain_type: terrain[i],
            base_terrain: if terrain[i] == TerrainType::Water { BaseTerrain::Ocean } else { BaseTerrain::Grassland },
            feature: None,
            natural_wonder: None,
            area_id: -1,
        });
    }
    TileQuery { tiles }
}

fn rng(seed: u64) -> RandomNumberGenerator {
    RandomNumberGenerator { rng: StdRng::seed_from_u64(seed) }
}

use TerrainType::{Flatland as F, Mountain as M, Water as W};

#[test]
fn a_river_gives_a_floodplain() {
    let mp = map(3, 1);
    let mut q = query(&mp, &[F, F, F]);
    // a river along the east edge of tile 0, that is, between tiles 0 and 1
    let river = River(vec![vec![(0, Direction::North)]]);
    let lat = vec![0; 3];
    add_features(Rainfall::Normal, &lat, &lat, &ruleset(&[FLOODPLAIN]), &river, &mut rng(1), &mp, &mut q);
    assert_eq!(q.tiles[0].feature, Some(Feature::Floodplain));
    assert_eq!(q.tiles[1].feature, Some(Feature::Floodplain));
    assert_eq!(q.tiles[2].feature, None);
}

#[test]
fn open_water_freezes_only_far_north() {
    let mp = map(3, 1);
    let r = ruleset(&[ICE]);
    let river = River(vec![]);
    for seed in 0..5 {
        let mut q = query(&mp, &[W, W, W]);
        let cold = vec![200; 3];
        add_features(Rainfall::Normal, &cold, &cold, &r, &river, &mut rng(seed), &mp, &mut q);
        assert!(q.tiles.iter().all(|t| t.feature == Some(Feature::Ice)));
        let mut q = query(&mp, &[W, W, W]);
        let mild = vec![78; 3];
        add_features(Rainfall::Normal, &mild, &mild, &r, &river, &mut rng(seed), &mp, &mut q);
        assert!(q.tiles.iter().all(|t| t.feature.is_none()));
    }
}

#[test]
fn mountains_get_nothing_and_forests_keep_to_their_share() {
    let mp = map(10, 10);
    let mut terrain = vec![F; 100];
    terrain[0] = M;
    let r = ruleset(&[FOREST, MARSH]);
    for seed in 0..5 {
        let mut q = query(&mp, &terrain);
        let lat = vec![0; 100];
        add_features(Rainfall::Normal, &lat, &lat, &r, &River(vec![]), &mut rng(seed), &mp, &mut q);
        assert_eq!(q.tiles[0].feature, None);
        let forests = q.tiles.iter().filter(|t| t.feature == Some(Feature::Forest)).count();
        let marshes = q.tiles.iter().filter(|t| t.feature == Some(Feature::Marsh)).count();
        // normal rainfall: at most 18 percent forest and 3 percent marsh, rounded up
        assert!(forests >= 1 && forests <= 18);
        assert!(marshes <= 3);
    }
}

#[test]
fn jungle_stays_in_its_band_and_turns_the_ground_to_plain() {
    let mp = map(10, 1);
    let r = ruleset(&[JUNGLE]);
    for seed in 0..5 {
        let mut q = query(&mp, &[F; 10]);
        let north = vec![40; 10];
        add_features(Rainfall::Wet, &north, &north, &r, &River(vec![]), &mut rng(seed), &mp, &mut q);
        assert!(q.tiles.iter().all(|t| t.feature.is_none()));
        let mut q = query(&mp, &[F; 10]);
        let equator = vec![0; 10];
        add_features(Rainfall::Wet, &equator, &equator, &r, &River(vec![]), &mut rng(seed), &mp, &mut q);
        let jungles: Vec<&TileQueryItem> = q.tiles.iter().filter(|t| t.feature == Some(Feature::Jungle)).collect();
        assert!(!jungles.is_empty());
        assert!(jungles.iter().all(|t| t.base_terrain == BaseTerrain::Plain && t.terrain_type == F));
    }
}

#[test]
fn an_oasis_needs_its_rules() {
    let mp = map(5, 1);
    let r = ruleset(&[OASIS]);
    let mut placed = 0;
    for seed in 0..20 {
        let mut q = query(&mp, &[F; 5]);
        let lat = vec![0; 5];
        add_features(Rainfall::Random, &lat, &lat, &r, &River(vec![]), &mut rng(seed), &mp, &mut q);
        placed += q.tiles.iter().filter(|t| t.feature == Some(Feature::Oasis)).count();
        assert!(q.tiles.iter().all(|t| t.feature.is_none() || t.feature == Some(Feature::Oasis)));
    }
    assert!(placed > 0);
}
