use civ_remastered::area::AreaIdAndSize;
use civ_remastered::hex::{Direction, Hex, HexOrientation, HexPosition, MapParameters, Offset};
use civ_remastered::map_gen::RandomNumberGenerator;
use civ_remastered::river::{add_rivers, area_river_edges_below, do_river};
use civ_remastered::terrain::{BaseTerrain, NaturalWonder, TerrainType};
use civ_remastered::tile_query::{River, TileQuery, TileQueryItem};
use rand::rngs::StdRng;
use rand::{Rng, SeedableRng};
use std::collections::BTreeMap;

fn map(width: u32, height: u32, orientation: HexOrientation) -> MapParameters {
    MapParameters { width, height, orientation, offset: Offset::Odd, wrap_x: false, wrap_y: false }
}

fn query(mp: &MapParameters, terrain: &[TerrainType], area: &[i32]) -> TileQuery {
    let mut tiles = Vec::new();
    for i in 0..(mp.width * mp.height) as usize {
        let c = mp.index_to_offset_coordinate(i);
        let h = Hex::from_offset_coordinate(c, mp.offset, mp.orientation);
        tiles.push(TileQueryItem {
            entity: 1000 - i as u64,
            hex_position: HexPosition([h.x, h.y]),
            terrain_type: terrain[i],
            base_terrain: if terrain[i] == TerrainType::Water { BaseTerrain::Ocean } else { BaseTerrain::Grassland },
            feature: None,
            natural_wonder: None,
            area_id: area[i],
        });
    }
    TileQuery { tiles }
}

use TerrainType::{Flatland as F, Hill as H, Mountain as M, Water as W};

fn island() -> (MapParameters, TileQuery) {
    let mp = map(8, 8, HexOrientation::Pointy);
    let terrain = [
        W, W, W, W, W, W, W, W,
        W, F, F, F, F, F, F, W,
        W, F, H, H, F, F, F, W,
        W, F, H, M, M, H, F, W,
        W, F, F, H, M, H, F, W,
        W, F, F, F, H, F, F, W,
        W, F, F, F, F, F, F, W,
        W, W, W, W, W, W, W, W,
    ];
    let area: Vec<i32> = terrain.iter().map(|t| if *t == W { 0 } else { 1 }).collect();
    let q = query(&mp, &terrain, &area);
    (mp, q)
}

fn flows_ok(mp: &MapParameters, river: &River) -> bool {
    river.0.iter().flatten().all(|&(_, flow)| {
        flow != Direction::Unset
            && match mp.orientation {
                HexOrientation::Pointy => flow != Direction::East && flow != Direction::West,
                HexOrientation::Flat => flow != Direction::North && flow != Direction::South,
            }
    })
}

#[test]
fn a_river_starts_on_a_hill_and_keeps_to_corner_directions() {
    let (mp, q) = island();
    for seed in 0..6u64 {
        let mut rng = RandomNumberGenerator { rng: StdRng::seed_from_u64(seed) };
        let mut river = River(Vec::new());
        do_river(&mut river, &mut rng, 3 * 8 + 3, 0, &mp, &q);
        assert!(flows_ok(&mp, &river));
        assert!(river.0.len() <= 1);
        for &(t, _) in river.0.iter().flatten() {
            assert!(t < 64);
        }
    }
}

#[test]
fn no_new_river_where_one_already_runs() {
    let (mp, q) = island();
    let mut rng = RandomNumberGenerator { rng: StdRng::seed_from_u64(1) };
    let mut river = River(vec![vec![(27, Direction::North)]]);
    do_river(&mut river, &mut rng, 27, 1, &mp, &q);
    assert_eq!(river.0, vec![vec![(27, Direction::North)]]);
    // no number was drawn: the generator goes on as a fresh one with the same seed
    let mut fresh = StdRng::seed_from_u64(1);
    assert_eq!(rng.rng.gen::<u64>(), fresh.gen::<u64>());
}

#[test]
fn river_ids_start_empty_rivers_when_skipped() {
    let (mp, q) = island();
    let mut rng = RandomNumberGenerator { rng: StdRng::seed_from_u64(2) };
    let mut river = River(Vec::new());
    do_river(&mut river, &mut rng, 3 * 8 + 3, 2, &mp, &q);
    // rivers 0 and 1 exist, empty, when river 2 gets its first edge
    if !river.0.is_empty() {
        assert_eq!(river.0.len(), 3);
        assert!(river.0[0].is_empty() && river.0[1].is_empty());
        assert!(!river.0[2].is_empty());
    }
}

#[test]
fn rivers_of_a_map_only_add_edges() {
    let (mp, q) = island();
    let mut sizes = BTreeMap::new();
    sizes.insert(0, 28);
    sizes.insert(1, 36);
    let sizes = AreaIdAndSize(sizes);
    for seed in 0..4u64 {
        let mut rng = RandomNumberGenerator { rng: StdRng::seed_from_u64(seed) };
        let before = vec![vec![(9, Direction::NorthEast)]];
        let mut river = River(before.clone());
        add_rivers(&mp, &mut rng, &sizes, &mut river, &q);
        assert_eq!(river.0[0][0], (9, Direction::NorthEast));
        assert!(flows_ok(&mp, &river));
    }
}

#[test]
fn no_river_starts_next_to_a_natural_wonder() {
    let (mp, mut q) = island();
    // a wonder on every land tile: no tile may start a river
    for t in q.tiles.iter_mut() {
        if t.terrain_type != W {
            t.natural_wonder = Some(NaturalWonder(0));
        }
    }
    let mut sizes = BTreeMap::new();
    sizes.insert(0, 28);
    sizes.insert(1, 36);
    let mut rng = RandomNumberGenerator { rng: StdRng::seed_from_u64(5) };
    let mut river = River(Vec::new());
    add_rivers(&mp, &mut rng, &AreaIdAndSize(sizes), &mut river, &q);
    assert!(river.0.iter().all(|r| r.is_empty()));
}

#[test]
fn a_flat_map_gets_rivers_too() {
    let mp = map(8, 8, HexOrientation::Flat);
    let (_, pq) = island();
    let terrain: Vec<TerrainType> = pq.tiles.iter().map(|t| t.terrain_type).collect();
    let area: Vec<i32> = pq.tiles.iter().map(|t| t.area_id).collect();
    let q = query(&mp, &terrain, &area);
    let mut sizes = BTreeMap::new();
    sizes.insert(0, 28);
    sizes.insert(1, 36);
    let mut rng = RandomNumberGenerator { rng: StdRng::seed_from_u64(9) };
    let mut river = River(Vec::new());
    add_rivers(&mp, &mut rng, &AreaIdAndSize(sizes), &mut river, &q);
    assert!(flows_ok(&mp, &river));
}

#[test]
fn the_draws_set_equal_ways_apart() {
    let (mp, q) = island();
    let mut courses = Vec::new();
    for seed in 0..8u64 {
        let mut rng = RandomNumberGenerator { rng: StdRng::seed_from_u64(seed) };
        let mut river = River(Vec::new());
        do_river(&mut river, &mut rng, 3 * 8 + 3, 0, &mp, &q);
        assert!(!river.0.is_empty() && !river.0[0].is_empty());
        courses.push(format!("{:?}", river.0));
    }
    courses.sort();
    courses.dedup();
    assert!(courses.len() >= 2);
}

#[test]
fn a_river_from_a_mountain_takes_its_first_steps() {
    let (mp, q) = island();
    let mut rng = RandomNumberGenerator { rng: StdRng::seed_from_u64(2) };
    let mut river = River(Vec::new());
    do_river(&mut river, &mut rng, 27, 0, &mp, &q);
    // the first edge lies on the start tile
    assert_eq!(river.0[0][0].0, 27);
    // each edge lies on the tile where the one before ended or next to it
    for w in river.0[0].windows(2) {
        let a = q.tiles[w[0].0].hex_position.0;
        let b = q.tiles[w[1].0].hex_position.0;
        let dx = (a[0] - b[0]).abs();
        let dy = (a[1] - b[1]).abs();
        let dz = (a[0] + a[1] - b[0] - b[1]).abs();
        assert!(dx + dy + dz <= 2);
    }
}

#[test]
fn an_area_counts_the_edges_of_all_its_rivers() {
    let mp = map(4, 1, HexOrientation::Pointy);
    let q = query(&mp, &[F, F, F, F], &[0, 0, 1, 1]);
    // two edges on tile 0 (first river), one on tile 1 (second river), one on tile 2
    let river = River(vec![
        vec![(0, Direction::North), (0, Direction::NorthEast)],
        vec![(1, Direction::South), (2, Direction::North)],
    ]);
    assert!(!area_river_edges_below(&river, &q, 0, 3));
    assert!(area_river_edges_below(&river, &q, 0, 4));
    assert!(!area_river_edges_below(&river, &q, 1, 1));
    assert!(area_river_edges_below(&river, &q, 1, 2));
    assert!(area_river_edges_below(&river, &q, 5, 1));
    assert!(!area_river_edges_below(&river, &q, 5, 0));
}
