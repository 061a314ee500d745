use civ_remastered::city::{City, CityProduction};
use civ_remastered::combat::{ai_attack_system, resolve_attack, restore_movement, AiUnit, Health, SimpleRng, UnitAt};
use civ_remastered::construction::{
    buildable_buildings, buildable_units, find_spawn_tile, handle_build_request, process_city_production,
    process_improvement_progress, turns_estimate, turns_string, BuildingInfo, ProductionOutcome,
    TileImprovementBuildProgress, UnitInfo, UnitPresence,
};
use civ_remastered::hex::{HexOrientation, MapParameters, Offset};
use civ_remastered::map_gen::generate_empty_map;
use civ_remastered::tile_query::TileQuery;
use civ_remastered::movement::{are_tiles_adjacent, handle_move_request, is_same_owner, movement_cost, MoveAction, Movement};
use civ_remastered::tech::{TechState, TechStateManager};
use civ_remastered::terrain::TerrainType;

#[test]
fn build_request_needs_a_worker_and_a_free_tile() {
    let p = handle_build_request(true, false, false, 3, 0, 2, 55).unwrap();
    assert_eq!(p, TileImprovementBuildProgress { improvement: 3, progress: 0, total_turns: 1, owner: 2, worker: 55 });
    assert_eq!(handle_build_request(true, false, false, 3, 6, 2, 55).unwrap().total_turns, 6);
    assert!(handle_build_request(false, false, false, 3, 6, 2, 55).is_none());
    assert!(handle_build_request(true, true, false, 3, 6, 2, 55).is_none());
    assert!(handle_build_request(true, false, true, 3, 6, 2, 55).is_none());
}

#[test]
fn improvement_finishes_after_its_turns() {
    let mut p = handle_build_request(true, false, false, 3, 3, 2, 55).unwrap();
    assert!(!process_improvement_progress(0, 2, &mut p));
    assert!(!process_improvement_progress(4, 1, &mut p));
    assert_eq!(p.progress, 0);
    assert!(!process_improvement_progress(4, 2, &mut p));
    assert!(!process_improvement_progress(5, 2, &mut p));
    assert!(process_improvement_progress(6, 2, &mut p));
    assert_eq!(p.progress, 3);
}

fn producing(item: CityProduction) -> City {
    let mut c = City::new("P".to_string(), 0);
    c.current_production = Some(item);
    c
}

#[test]
fn a_building_is_produced() {
    let mut c = producing(CityProduction::Building(2));
    let building_costs = vec![40, 60, 30];
    let unit_costs = vec![25];
    assert_eq!(process_city_production(1, 4, 4, &mut c, 20, &building_costs, &unit_costs), ProductionOutcome::Nothing);
    assert_eq!(c.production_progress, 20);
    assert_eq!(process_city_production(2, 4, 4, &mut c, 20, &building_costs, &unit_costs), ProductionOutcome::Building(2));
    assert_eq!(c.buildings, vec![0, 2]);
    assert_eq!(c.production_progress, 0);
    assert_eq!(c.current_production, None);
}

#[test]
fn a_unit_is_produced_and_idle_cities_wait() {
    let mut c = producing(CityProduction::Unit(0));
    let unit_costs = vec![-5];
    assert_eq!(process_city_production(1, 4, 5, &mut c, 20, &vec![], &unit_costs), ProductionOutcome::Nothing);
    assert_eq!(process_city_production(1, 4, 4, &mut c, 0, &vec![], &unit_costs), ProductionOutcome::Nothing);
    assert_eq!(process_city_production(0, 4, 4, &mut c, 3, &vec![], &unit_costs), ProductionOutcome::Nothing);
    assert_eq!(c.production_progress, 0);
    assert_eq!(process_city_production(1, 4, 4, &mut c, 1, &vec![], &unit_costs), ProductionOutcome::Unit(0));
    assert_eq!(c.buildings, vec![0]);
}

#[test]
fn produced_units_go_to_the_first_free_tile() {
    let owned = vec![5, 6, 5, 7];
    let neighbors = vec![6, 8, 9];
    let units = vec![
        UnitPresence { tile: 5, military: true, civilian: false, owner: 1 },
        UnitPresence { tile: 6, military: false, civilian: true, owner: 2 },
        UnitPresence { tile: 7, military: false, civilian: true, owner: 1 },
    ];
    // a military unit of nation 1: 5 holds a military unit, 6 a foreign civilian, 7 its own civilian
    assert_eq!(find_spawn_tile(5, &owned, &neighbors, true, 1, &units), 7);
    // a civilian of nation 1: 5 holds its own military unit
    assert_eq!(find_spawn_tile(5, &owned, &neighbors, false, 1, &units), 5);
    // a civilian of nation 2: 5 foreign, 6 civilian, 7 foreign -> first neighbor not owned: 8
    assert_eq!(find_spawn_tile(5, &owned, &neighbors, false, 2, &units), 8);
    let crowded = vec![UnitPresence { tile: 5, military: true, civilian: false, owner: 3 }];
    assert_eq!(find_spawn_tile(5, &vec![5], &vec![], true, 1, &crowded), 5);
}

#[test]
fn production_turn_estimates() {
    assert_eq!(turns_estimate(40, 0), 0);
    assert_eq!(turns_estimate(40, 7), 6);
    assert_eq!(turns_estimate(42, 7), 6);
    assert_eq!(turns_estimate(0, 7), 0);
    assert_eq!(turns_string(43, 7), "7");
    assert_eq!(turns_string(120, 1), "120");
    assert_eq!(turns_string(5, 0), "∞");
}

#[test]
fn what_a_city_may_produce() {
    let states = TechStateManager(vec![TechState::Researched, TechState::Available]);
    let units = vec![
        UnitInfo { strength: 0, cost: 30, required_tech: None, obsolete_tech: None },
        UnitInfo { strength: 6, cost: 40, required_tech: Some(0), obsolete_tech: None },
        UnitInfo { strength: 8, cost: 50, required_tech: Some(1), obsolete_tech: None },
        UnitInfo { strength: 4, cost: 20, required_tech: None, obsolete_tech: Some(0) },
        UnitInfo { strength: 4, cost: 0, required_tech: None, obsolete_tech: None },
        UnitInfo { strength: 5, cost: 25, required_tech: None, obsolete_tech: Some(1) },
    ];
    assert_eq!(buildable_units(&units, Some(&states)), vec![1, 5]);
    assert_eq!(buildable_units(&units, None), vec![3, 5]);
    let buildings = vec![
        BuildingInfo { cost: 100, is_wonder: false, is_national_wonder: false, required_tech: None },
        BuildingInfo { cost: 100, is_wonder: true, is_national_wonder: false, required_tech: None },
        BuildingInfo { cost: 80, is_wonder: false, is_national_wonder: false, required_tech: Some(0) },
        BuildingInfo { cost: 80, is_wonder: false, is_national_wonder: false, required_tech: Some(1) },
        BuildingInfo { cost: 60, is_wonder: false, is_national_wonder: true, required_tech: None },
    ];
    assert_eq!(buildable_buildings(&buildings, &vec![0], Some(&states)), vec![2]);
    assert_eq!(buildable_buildings(&buildings, &vec![], None), vec![0]);
}

#[test]
fn movement_costs() {
    assert_eq!(movement_cost(TerrainType::Flatland), 1);
    assert_eq!(movement_cost(TerrainType::Hill), 2);
    assert_eq!(movement_cost(TerrainType::Mountain), 0);
    assert_eq!(movement_cost(TerrainType::Water), 0);
    assert!(is_same_owner(3, 3));
    assert!(!is_same_owner(3, 4));
}

#[test]
fn moving_onto_free_and_shared_tiles() {
    let mv = Movement { current: 2, max: 2 };
    let none: Vec<(u64, usize)> = vec![];
    let r = handle_move_request(mv, 1, false, 9, TerrainType::Hill, &none, &none, &vec![], &none);
    assert_eq!(r, MoveAction::MoveTo { tile: 9, movement: 0 });
    let r = handle_move_request(Movement { current: 1, max: 2 }, 1, false, 9, TerrainType::Hill, &none, &none, &vec![], &none);
    assert_eq!(r, MoveAction::MoveTo { tile: 9, movement: 1 });
    // a civilian joins its own military unit, not a foreign civilian
    let own_mil = vec![(40u64, 1usize)];
    let r = handle_move_request(mv, 1, true, 9, TerrainType::Flatland, &own_mil, &none, &vec![], &own_mil);
    assert_eq!(r, MoveAction::MoveTo { tile: 9, movement: 1 });
    let civ = vec![(41u64, 1usize)];
    let r = handle_move_request(mv, 1, true, 9, TerrainType::Flatland, &none, &civ, &vec![], &civ);
    assert_eq!(r, MoveAction::Stay);
    // a military unit cannot join another military unit of its own nation
    let r = handle_move_request(mv, 1, false, 9, TerrainType::Flatland, &own_mil, &none, &vec![], &own_mil);
    assert_eq!(r, MoveAction::Stay);
    let r = handle_move_request(Movement { current: 0, max: 2 }, 1, false, 9, TerrainType::Flatland, &none, &none, &vec![], &none);
    assert_eq!(r, MoveAction::Stay);
}

#[test]
fn moving_onto_an_enemy_attacks_from_a_free_neighbor() {
    let mv = Movement { current: 2, max: 2 };
    let enemy = vec![(50u64, 3usize)];
    let on_target = vec![(49u64, 1usize), (50u64, 3usize)];
    let neighbors = vec![(11usize, true), (12usize, false), (13usize, false)];
    let r = handle_move_request(mv, 1, false, 9, TerrainType::Flatland, &enemy, &vec![], &neighbors, &on_target);
    assert_eq!(r, MoveAction::AttackFrom { tile: 12, target: Some(50) });
    let blocked = vec![(11usize, true)];
    let r = handle_move_request(mv, 1, false, 9, TerrainType::Flatland, &enemy, &vec![], &blocked, &on_target);
    assert_eq!(r, MoveAction::Stay);
}

fn grid(width: u32, height: u32, orientation: HexOrientation, wrap_x: bool) -> (MapParameters, TileQuery) {
    let mp = MapParameters { width, height, orientation, offset: Offset::Odd, wrap_x, wrap_y: false };
    let entities: Vec<u64> = (0..(width * height) as u64).collect();
    let (_, q) = generate_empty_map(&mp, entities);
    (mp, q)
}

#[test]
fn adjacency_is_the_six_hex_neighbors() {
    for orientation in [HexOrientation::Pointy, HexOrientation::Flat] {
        let (mp, q) = grid(5, 5, orientation, false);
        let center = 2 * 5 + 2;
        let neighbors: Vec<usize> = (0..25).filter(|&j| are_tiles_adjacent(center, j, &mp, &q)).collect();
        assert_eq!(neighbors.len(), 6);
        assert!(!are_tiles_adjacent(center, center, &mp, &q));
        // of the eight tiles around it in offset coordinates, two are not neighbors
        let boxed: Vec<usize> = vec![6, 7, 8, 11, 13, 16, 17, 18];
        assert_eq!(boxed.iter().filter(|&&j| are_tiles_adjacent(center, j, &mp, &q)).count(), 6);
        for a in 0..25 {
            for b in 0..25 {
                assert_eq!(are_tiles_adjacent(a, b, &mp, &q), are_tiles_adjacent(b, a, &mp, &q));
            }
        }
    }
}

#[test]
fn adjacency_crosses_a_wrapping_edge() {
    let (mp, q) = grid(4, 4, HexOrientation::Pointy, true);
    assert!(are_tiles_adjacent(4, 7, &mp, &q));
    let (mp, q) = grid(4, 4, HexOrientation::Pointy, false);
    assert!(!are_tiles_adjacent(4, 7, &mp, &q));
}

#[test]
fn random_numbers_follow_the_generator() {
    let mut rng = SimpleRng::new(1);
    let bits = rng.next_bits();
    let expected_state = 1u64.wrapping_mul(6364136223846793005).wrapping_add(1442695040888963407);
    assert_eq!(rng.0, expected_state);
    assert_eq!(bits as u64, expected_state >> 33);
    let mut zero = SimpleRng::new(0);
    assert_eq!(zero.next_bits() as u64, 1442695040888963407u64 >> 33);
    let mut a = SimpleRng::new(7);
    let mut b = SimpleRng::new(7);
    assert_eq!(a.next_bits(), b.next_bits());
}

#[test]
fn damage_and_death() {
    let att = Health { current: 80, max: 100 };
    let def = Health { current: 30, max: 100 };
    let r = resolve_attack(att, def, false, 35, 20);
    assert_eq!(r.defender.current, 0);
    assert!(r.defender_died);
    assert_eq!(r.attacker.current, 60);
    assert!(!r.attacker_died);
    let ranged = resolve_attack(att, def, true, 10, 90);
    assert_eq!(ranged.attacker.current, 80);
    assert_eq!(ranged.defender.current, 20);
    let both = resolve_attack(Health { current: 5, max: 10 }, def, false, 1, 9);
    assert!(both.attacker_died);
}

#[test]
fn only_the_current_nation_moves_again() {
    let mut units = vec![(1usize, Movement { current: 0, max: 2 }), (2, Movement { current: 1, max: 3 }), (1, Movement { current: 1, max: 4 })];
    restore_movement(&mut units, 1);
    assert_eq!(units[0].1, Movement { current: 2, max: 2 });
    assert_eq!(units[1].1, Movement { current: 1, max: 3 });
    assert_eq!(units[2].1, Movement { current: 4, max: 4 });
}

#[test]
fn computer_attacks_units_sharing_its_tile() {
    let enemies = vec![
        AiUnit { entity: 1, owner: 9, strength: 5, movement: 2, tile: 4 },
        AiUnit { entity: 2, owner: 9, strength: 0, movement: 2, tile: 4 },
        AiUnit { entity: 3, owner: 9, strength: 5, movement: 0, tile: 4 },
        AiUnit { entity: 4, owner: 9, strength: 5, movement: 1, tile: 6 },
    ];
    let units = vec![
        UnitAt { entity: 1, owner: 9, tile: 4 },
        UnitAt { entity: 20, owner: 1, tile: 4 },
        UnitAt { entity: 21, owner: 1, tile: 4 },
        UnitAt { entity: 22, owner: 1, tile: 5 },
    ];
    assert_eq!(ai_attack_system(&enemies, &units), vec![(1, 20)]);
}
