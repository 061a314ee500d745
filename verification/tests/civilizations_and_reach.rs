use civ_remastered::civ::{CivData, CivilizationStates, TechManager, TechManagerMap};
use civ_remastered::tech::{TechInfo, TechRules, TechState, TechStateManager};
use civ_remastered::hex::{HexOrientation, MapParameters, Offset};
use civ_remastered::map_gen::generate_empty_map;
use civ_remastered::movement::{calculate_move_range, calculate_move_range_on_map};
use civ_remastered::terrain::TerrainType;
use TerrainType::{Flatland as F, Hill as H, Mountain as M, Water as W};

#[test]
fn a_new_civilization() {
    let c = CivData::new(4, true);
    assert_eq!((c.nation, c.gold, c.gold_per_turn, c.science_per_turn, c.culture, c.culture_per_turn, c.is_human), (4, 500, 0, 3, 0, 0, true));
    assert_eq!(CivData::new(5, false).gold, 500);
}

#[test]
fn turns_add_gold_and_culture() {
    let mut s = CivilizationStates::new(1, vec![2, 3]);
    assert_eq!(s.turn, 1);
    assert_eq!(s.civs.len(), 3);
    s.civs[1].gold_per_turn = 7;
    s.civs[2].culture_per_turn = 2;
    s.end_turn();
    s.end_turn();
    assert_eq!(s.turn, 3);
    assert_eq!(s.civs[1].gold, 514);
    assert_eq!(s.civs[2].culture, 4);
    assert_eq!(s.player_data().nation, 1);
    assert!(s.player_data().is_human);
    assert!(s.is_enemy(3));
    assert!(!s.is_enemy(1));
}

#[test]
fn a_nation_listed_twice_has_one_entry() {
    let s = CivilizationStates::new(1, vec![2, 1, 2]);
    assert_eq!(s.civs.len(), 2);
    // the player's own nation listed as an enemy replaces the player's entry
    assert!(!s.civs.iter().find(|c| c.nation == 1).unwrap().is_human);
}

#[test]
fn move_range_on_a_line() {
    // 0 - 1 - 2 - 3 - 4, with 5 off 0
    let terrain = vec![F, F, H, F, F, W];
    let adj = vec![vec![1, 5], vec![0, 2], vec![1, 3], vec![2, 4], vec![3], vec![0]];
    let r = calculate_move_range(0, 3, &terrain, &adj);
    assert_eq!(r, vec![false, true, true, false, false, false]);
    let r = calculate_move_range(0, 4, &terrain, &adj);
    assert_eq!(r, vec![false, true, true, true, false, false]);
    let none = calculate_move_range(0, 0, &terrain, &adj);
    assert!(none.iter().all(|b| !b));
    let mountain = vec![F, M, F, F, F, W];
    let r = calculate_move_range(0, 5, &mountain, &adj);
    assert_eq!(r, vec![false, false, false, false, false, false]);
}

#[test]
fn move_range_takes_the_cheaper_way_round() {
    // 0 reaches 3 over the hill 1 or over the flat 2; only the way over 2 leaves a
    // point for 4
    let terrain = vec![F, H, F, F, F];
    let adj = vec![vec![1, 2], vec![0, 3], vec![0, 3], vec![1, 2, 4], vec![3]];
    let r = calculate_move_range(0, 3, &terrain, &adj);
    assert_eq!(r, vec![false, true, true, true, true]);
    let r = calculate_move_range(0, 2, &terrain, &adj);
    assert_eq!(r, vec![false, true, true, true, false]);
}

fn research_rules() -> TechRules {
    let t = |cost: i32, prerequisites: Vec<usize>| TechInfo {
        cost,
        era: 0,
        prerequisites,
        continually_researchable: false,
        starting_tech: false,
    };
    // 0 is researched; 1 (35) and 2 (30) and 3 (30) need 0; 4 (10) needs 1
    TechRules { technologies: vec![t(20, vec![]), t(35, vec![0]), t(30, vec![0]), t(30, vec![0]), t(10, vec![1])], future_tech: 4, era_count: 1 }
}

fn managers() -> TechManagerMap {
    let states = vec![TechState::Researched, TechState::Available, TechState::Available, TechState::Available, TechState::Locked];
    TechManagerMap(vec![
        TechManager { states: TechStateManager(states.clone()), techs_to_research: vec![] },
        TechManager { states: TechStateManager(states), techs_to_research: vec![1] },
    ])
}

#[test]
fn starting_research_replaces_the_queue() {
    let mut map = managers();
    let civ = CivData::new(1, true);
    assert!(civ.start_research(3, &mut map));
    assert_eq!(map.0[1].techs_to_research, vec![3]);
    assert!(map.0[0].techs_to_research.is_empty());
    let stranger = CivData::new(7, false);
    assert!(stranger.start_research(2, &mut map));
    assert_eq!(map.0[1].techs_to_research, vec![3]);
}

#[test]
fn the_computer_takes_the_cheapest_technology_it_may_research() {
    let mut map = managers();
    let mut civ = CivData::new(0, false);
    civ.ai_choose_research(&research_rules(), &mut map);
    // 2 and 3 cost 30; the first in table order wins; 4 is cheaper but not yet open
    assert_eq!(map.0[0].techs_to_research, vec![2]);
    // with research under way nothing changes
    let mut busy = CivData::new(1, false);
    busy.ai_choose_research(&research_rules(), &mut map);
    assert_eq!(map.0[1].techs_to_research, vec![1]);
}

#[test]
fn move_range_on_a_row_of_the_map() {
    let mp = MapParameters { width: 5, height: 1, orientation: HexOrientation::Pointy, offset: Offset::Odd, wrap_x: false, wrap_y: false };
    let (_, mut q) = generate_empty_map(&mp, (0..5u64).collect());
    for (t, terrain) in q.tiles.iter_mut().zip([F, F, H, F, F]) {
        t.terrain_type = terrain;
    }
    assert_eq!(calculate_move_range_on_map(0, 3, &mp, &q), vec![false, true, true, false, false]);
    assert_eq!(calculate_move_range_on_map(0, 4, &mp, &q), vec![false, true, true, true, false]);
    let wrapping = MapParameters { wrap_x: true, ..mp };
    assert_eq!(calculate_move_range_on_map(0, 1, &wrapping, &q), vec![false, true, false, false, true]);
}
