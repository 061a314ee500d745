use civ_remastered::hex::{Direction, Hex, HexOrientation, HexPosition, MapParameters, Offset, TileStorage};
use civ_remastered::terrain::{BaseTerrain, Feature, FeatureInfo, NaturalWonder, NaturalWonderInfo, Ruleset, TerrainType};
use civ_remastered::tile_query::{River, TileQuery, TileQueryItem};

fn ruleset() -> Ruleset {
    let mut features = Vec::new();
    for i in 0..8 {
        features.push(FeatureInfo { impassable: i == 6, occurs_on_type: vec![], occurs_on_base: vec![] });
    }
    Ruleset { features, natural_wonders: vec![NaturalWonderInfo { impassable: true }, NaturalWonderInfo { impassable: false }] }
}

fn map(width: u32, height: u32, wrap_x: bool) -> MapParameters {
    MapParameters { width, height, orientation: HexOrientation::Pointy, offset: Offset::Odd, wrap_x, wrap_y: false }
}

fn query(mp: &MapParameters, terrain: &[TerrainType]) -> TileQuery {
    let mut tiles = Vec::new();
    for i in 0..(mp.width * mp.height) as usize {
        let c = mp.index_to_offset_coordinate(i);
        let h = Hex::from_offset_coordinate(c, mp.offset, mp.orientation);
        tiles.push(TileQueryItem {
            entity: 100 + i as u64,
            hex_position: HexPosition([h.x, h.y]),
            terrain_type: terrain[i],
            base_terrain: BaseTerrain::Grassland,
            feature: None,
            natural_wonder: None,
            area_id: -1,
        });
    }
    TileQuery { tiles }
}

#[test]
fn names_of_terrain() {
    assert_eq!(BaseTerrain::Grassland.name(), "Grassland");
    assert_eq!(BaseTerrain::Ocean.name(), "Ocean");
    assert_eq!(TerrainType::Hill.name(), "Hill");
    assert_eq!(TerrainType::Water.name(), "Water");
    assert_eq!(Feature::Floodplain.name(), "Floodplain");
    assert_eq!(Feature::Fallout.name(), "Fallout");
}

#[test]
fn impassable_features_and_wonders() {
    let r = ruleset();
    assert!(Feature::Atoll.impassable(&r));
    assert!(!Feature::Forest.impassable(&r));
    assert!(NaturalWonder(0).impassable(&r));
    assert!(!NaturalWonder(1).impassable(&r));
}

#[test]
fn impassable_tiles() {
    let r = ruleset();
    let mp = map(2, 1, false);
    let mut q = query(&mp, &[TerrainType::Mountain, TerrainType::Flatland]);
    assert!(q.tiles[0].is_impassable(&r));
    assert!(!q.tiles[1].is_impassable(&r));
    q.tiles[1].feature = Some(Feature::Atoll);
    assert!(q.tiles[1].is_impassable(&r));
    q.tiles[1].feature = None;
    q.tiles[1].natural_wonder = Some(NaturalWonder(0));
    assert!(q.tiles[1].is_impassable(&r));
}

#[test]
fn offset_and_hex_round_trip() {
    for orientation in [HexOrientation::Pointy, HexOrientation::Flat] {
        for offset in [Offset::Even, Offset::Odd] {
            for x in -3..4 {
                for y in -3..4 {
                    let h = Hex::new(x, y);
                    let c = h.to_offset_coordinate(offset, orientation);
                    let back = Hex::from_offset_coordinate(c, offset, orientation);
                    assert_eq!((back.x, back.y), (x, y));
                }
            }
        }
    }
}

#[test]
fn pointy_odd_offset_example() {
    // row 1 is shoved; hex (0, 1) sits in column 0 for odd offsets
    let h = Hex::from_offset_coordinate([1, 1], Offset::Odd, HexOrientation::Pointy);
    assert_eq!((h.x, h.y), (1, 1));
    let h = Hex::from_offset_coordinate([1, 2], Offset::Odd, HexOrientation::Pointy);
    assert_eq!((h.x, h.y), (0, 2));
}

#[test]
fn neighbor_and_back() {
    let h = Hex::new(2, -1);
    for d in [Direction::East, Direction::West, Direction::NorthEast, Direction::NorthWest, Direction::SouthEast, Direction::SouthWest] {
        let n = h.neighbor(HexOrientation::Pointy, d);
        assert_eq!(Hex::hex_distance(h, n), 1);
        let back = n.neighbor(HexOrientation::Pointy, d.opposite_direction());
        assert_eq!((back.x, back.y), (2, -1));
    }
}

#[test]
fn hex_distance_values() {
    assert_eq!(Hex::hex_distance(Hex::new(0, 0), Hex::new(3, -1)), 3);
    assert_eq!(Hex::hex_distance(Hex::new(1, 1), Hex::new(-2, 4)), 3);
    assert_eq!(Hex::hex_distance(Hex::new(0, 0), Hex::new(0, 0)), 0);
}

#[test]
fn rings_and_disks() {
    let c = Hex::new(5, -2);
    for d in 1..4u32 {
        let ring = c.hexes_at_distance(d);
        assert_eq!(ring.len(), 6 * d as usize);
        for h in &ring {
            assert_eq!(Hex::hex_distance(c, *h), d as i32);
        }
    }
    let disk = c.hexes_in_distance(2);
    assert_eq!(disk.len(), 19);
    for h in &disk {
        assert!(Hex::hex_distance(c, *h) <= 2);
    }
}

#[test]
fn tile_index_round_trip() {
    let mp = map(5, 4, false);
    for i in 0..20usize {
        let c = mp.index_to_offset_coordinate(i);
        assert_eq!(mp.offset_coordinate_to_index(c), i);
    }
    assert_eq!(mp.index_to_offset_coordinate(7), [2, 1]);
}

#[test]
fn normalize_wraps_only_along_wrapping_axis() {
    let mp = map(5, 4, true);
    assert_eq!(mp.normalize_offset([-1, 2]), Some([4, 2]));
    assert_eq!(mp.normalize_offset([6, 0]), Some([1, 0]));
    assert_eq!(mp.normalize_offset([2, 4]), None);
    let flat = map(5, 4, false);
    assert_eq!(flat.normalize_offset([-1, 2]), None);
}

#[test]
fn positions_index_and_entity() {
    let mp = map(4, 3, false);
    let q = query(&mp, &[TerrainType::Flatland; 12]);
    let storage = TileStorage { tiles: (0..12).map(|i| 100 + i as u64).collect() };
    for i in 0..12usize {
        assert_eq!(q.tiles[i].hex_position.index(&mp), i);
        assert_eq!(q.tiles[i].hex_position.entity(&mp, &storage), 100 + i as u64);
    }
}

#[test]
fn neighbors_of_corner_and_inner_tiles() {
    let mp = map(4, 3, false);
    let q = query(&mp, &[TerrainType::Flatland; 12]);
    let storage = TileStorage { tiles: (0..12).map(|i| 100 + i as u64).collect() };
    let inner = q.tiles[5].neighbor_indices(&mp);
    assert_eq!(inner.len(), 6);
    let mut sorted = inner.clone();
    sorted.sort();
    // row 1 is shoved right for odd offsets: neighbors of (1,1) are (1,0),(2,0),(0,1),(2,1),(1,2),(2,2)
    assert_eq!(sorted, vec![1, 2, 4, 6, 9, 10]);
    let corner = q.tiles[0].neighbor_indices(&mp);
    assert_eq!(corner.len(), 2);
    let ents = q.tiles[5].hex_position.entity_neighbors(&storage, &mp);
    assert_eq!(ents.len(), 6);
    assert!(ents.contains(&109));
    let n = q.tiles[5].hex_position.entity_neighbor(&storage, &mp, Direction::East);
    assert_eq!(n, Some(106));
    let w = q.tiles[4].hex_position.entity_neighbor(&storage, &mp, Direction::West);
    assert_eq!(w, None);
    let within = q.tiles[5].hex_position.entities_in_distance(1, &storage, &mp);
    assert_eq!(within.len(), 7);
    let at2 = q.tiles[0].hex_position.entities_at_distance(2, &storage, &mp);
    assert!(at2.iter().all(|e| *e >= 100 && *e < 112));
}

#[test]
fn wrapped_map_gives_full_neighborhood_on_the_edge() {
    let mp = map(4, 3, true);
    let q = query(&mp, &[TerrainType::Flatland; 12]);
    let west_edge = q.tiles[4].neighbor_indices(&mp);
    assert_eq!(west_edge.len(), 6);
    assert!(west_edge.contains(&7));
}

#[test]
fn coastal_land_and_fresh_water() {
    let mp = map(3, 1, false);
    let mut q = query(&mp, &[TerrainType::Water, TerrainType::Flatland, TerrainType::Flatland]);
    q.tiles[0].base_terrain = BaseTerrain::Lake;
    let river = River(vec![]);
    assert!(q.tiles[1].is_coastal_land(1, &mp, &q));
    assert!(!q.tiles[2].is_coastal_land(2, &mp, &q));
    assert!(!q.tiles[0].is_coastal_land(0, &mp, &q));
    assert!(q.tiles[1].is_freshwater(1, &mp, &river, &q));
    assert!(!q.tiles[2].is_freshwater(2, &mp, &river, &q));
}

#[test]
fn river_along_an_edge() {
    let mp = map(3, 1, false);
    let q = query(&mp, &[TerrainType::Flatland; 3]);
    // a river on tile 1's eastern edge, flowing south
    let river = River(vec![vec![(1, Direction::South)]]);
    assert!(q.tiles[1].has_river(1, Direction::East, &mp, &river, &q));
    assert!(q.tiles[2].has_river(2, Direction::West, &mp, &river, &q));
    assert!(!q.tiles[1].has_river(1, Direction::West, &mp, &river, &q));
    assert!(q.tiles[2].is_freshwater(2, &mp, &river, &q));
    // flowing south-east, it does not lie along an eastern edge
    let other = River(vec![vec![(1, Direction::SouthEast)]]);
    assert!(!q.tiles[1].has_river(1, Direction::East, &mp, &other, &q));
    assert!(!q.tiles[0].has_river(0, Direction::East, &mp, &River(vec![]), &q));
}
