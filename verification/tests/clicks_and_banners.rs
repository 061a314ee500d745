use civ_remastered::city::{citizen_icon_tiles, toggle_worked_tile, City, CityProduction, WorkToggle};
use civ_remastered::construction::{city_banner_turns, tech_unlocks};
use civ_remastered::selection::{
    attack_click_target, move_click_action, next_tile_selection, next_unit_selection, tile_selection_targets,
    MapUnit, MoveClick, SelectTarget,
};
use civ_remastered::tech::{choose_research, ResearchingTech, TechState, TechStateManager};

fn unit(entity: u64, owner: usize, tile: usize, military: bool) -> MapUnit {
    MapUnit { entity, owner, tile, military }
}

#[test]
fn tile_targets_list_city_then_military_then_civilians() {
    let units = vec![
        unit(1, 0, 5, false),
        unit(2, 0, 5, true),
        unit(3, 1, 5, true),
        unit(4, 0, 6, true),
        unit(5, 0, 5, true),
    ];
    let t = tile_selection_targets(true, 5, &units, 0);
    assert_eq!(t, vec![SelectTarget::City(5), SelectTarget::Unit(2), SelectTarget::Unit(5), SelectTarget::Unit(1)]);
    let t2 = tile_selection_targets(false, 5, &units, 1);
    assert_eq!(t2, vec![SelectTarget::Unit(3)]);
}

#[test]
fn clicking_a_tile_again_goes_round_its_targets() {
    let t = vec![SelectTarget::City(5), SelectTarget::Unit(2), SelectTarget::Unit(1)];
    // nothing selected: the city first
    assert_eq!(next_tile_selection(&t, 5, None, None), Some(SelectTarget::City(5)));
    // the city selected: then the first unit
    assert_eq!(next_tile_selection(&t, 5, Some(5), None), Some(SelectTarget::Unit(2)));
    // the last unit selected: back to the city
    assert_eq!(next_tile_selection(&t, 5, None, Some((1, 5))), Some(SelectTarget::City(5)));
    // a unit selected elsewhere: start over
    assert_eq!(next_tile_selection(&t, 5, None, Some((2, 9))), Some(SelectTarget::City(5)));
    assert_eq!(next_tile_selection(&vec![], 5, None, None), None);
}

#[test]
fn clicking_a_tile_cycles_the_players_units() {
    let units = vec![unit(7, 0, 3, true), unit(8, 1, 3, true), unit(9, 0, 3, false), unit(10, 0, 4, true)];
    assert_eq!(next_unit_selection(&units, 3, 0, None), Some(7));
    assert_eq!(next_unit_selection(&units, 3, 0, Some(7)), Some(9));
    assert_eq!(next_unit_selection(&units, 3, 0, Some(9)), Some(7));
    assert_eq!(next_unit_selection(&units, 3, 0, Some(10)), Some(7));
    assert_eq!(next_unit_selection(&units, 5, 0, Some(7)), None);
}

#[test]
fn a_move_click_moves_attacks_or_switches() {
    let me = unit(1, 0, 10, true);
    let units = vec![me, unit(2, 1, 11, false), unit(3, 1, 11, true), unit(4, 0, 12, true)];
    let reach = vec![11, 12];
    assert_eq!(move_click_action(me, 2, 0, None, 11, &reach, true, &units), MoveClick::Attack(3));
    assert_eq!(move_click_action(me, 2, 0, None, 11, &reach, false, &units), MoveClick::Move(11));
    assert_eq!(move_click_action(me, 2, 0, None, 12, &reach, true, &units), MoveClick::Move(12));
    assert_eq!(move_click_action(me, 2, 0, None, 13, &reach, true, &units), MoveClick::Nothing);
    assert_eq!(move_click_action(me, 0, 0, None, 11, &reach, true, &units), MoveClick::Nothing);
    assert_eq!(move_click_action(me, 2, 0, Some(units[3]), 12, &reach, true, &units), MoveClick::Select(4));
    let worker = unit(5, 0, 10, false);
    assert_eq!(move_click_action(worker, 2, 0, None, 11, &reach, true, &units), MoveClick::Move(11));
}

#[test]
fn only_adjacent_enemies_can_be_attacked() {
    let me = unit(1, 0, 10, true);
    let units = vec![me, unit(2, 1, 11, true), unit(3, 0, 11, true), unit(4, 1, 20, true)];
    let adjacent = vec![9, 11];
    assert_eq!(attack_click_target(me, 2, &units, &adjacent), Some(2));
    assert_eq!(attack_click_target(me, 3, &units, &adjacent), None);
    assert_eq!(attack_click_target(me, 4, &units, &adjacent), None);
    assert_eq!(attack_click_target(me, 99, &units, &adjacent), None);
}

fn city(owned: Vec<usize>, worked: Vec<usize>, population: u32) -> City {
    let mut c = City::new("Assign".to_string(), 0);
    c.owned_tiles = owned;
    c.worked_tiles = worked;
    c.population = population;
    c
}

#[test]
fn clicking_a_tile_toggles_its_citizen() {
    let distance = vec![0, 1, 2, 3, 4, 1];
    let mut c = city(vec![0, 1, 2, 4], vec![1], 2);
    assert_eq!(toggle_worked_tile(&mut c, 2, &distance), WorkToggle::Assigned);
    assert_eq!(c.worked_tiles, vec![1, 2]);
    assert_eq!(toggle_worked_tile(&mut c, 1, &distance), WorkToggle::Unassigned);
    assert_eq!(c.worked_tiles, vec![2]);
    // the center, a tile not owned, and a tile beyond the work radius of 3
    assert_eq!(toggle_worked_tile(&mut c, 0, &distance), WorkToggle::NotWorkable);
    assert_eq!(toggle_worked_tile(&mut c, 5, &distance), WorkToggle::NotWorkable);
    assert_eq!(toggle_worked_tile(&mut c, 4, &distance), WorkToggle::NotWorkable);
    assert_eq!(c.worked_tiles, vec![2]);
    c.population = 1;
    assert_eq!(toggle_worked_tile(&mut c, 1, &distance), WorkToggle::NoFreeCitizen);
    assert_eq!(c.worked_tiles, vec![2]);
}

#[test]
fn citizen_icons_cover_the_workable_tiles() {
    let distance = vec![0, 1, 2, 3, 4];
    let c = city(vec![0, 3, 4, 1], vec![1], 2);
    assert_eq!(citizen_icon_tiles(&c, &distance), vec![(3, false), (1, true)]);
}

#[test]
fn banner_shows_turns_to_grow_and_to_finish() {
    let mut c = city(vec![0], vec![], 1);
    c.food = 5;
    c.food_needed = 15;
    c.current_production = Some(CityProduction::Unit(1));
    c.production_progress = 10;
    let (grow, build) = city_banner_turns(&c, 3, 4, &vec![60], &vec![40, 25]);
    assert_eq!(grow, "4");
    assert_eq!(build, "4");
    let (grow0, _) = city_banner_turns(&c, 0, 4, &vec![60], &vec![40, 25]);
    assert_eq!(grow0, "∞");
    c.current_production = None;
    let (_, none) = city_banner_turns(&c, 3, 4, &vec![60], &vec![40, 25]);
    assert_eq!(none, "-");
    c.current_production = Some(CityProduction::Building(0));
    c.production_progress = 70;
    let (_, done) = city_banner_turns(&c, 3, 4, &vec![60], &vec![40, 25]);
    assert_eq!(done, "0");
}

#[test]
fn picking_research_needs_an_available_technology() {
    let m = TechStateManager(vec![TechState::Researched, TechState::Available, TechState::Locked, TechState::ResearchedAndRepeatable]);
    let mut r = ResearchingTech(None);
    assert!(!choose_research(&mut r, 0, &m));
    assert_eq!(r.0, None);
    assert!(choose_research(&mut r, 1, &m));
    assert_eq!(r.0, Some(1));
    assert!(!choose_research(&mut r, 2, &m));
    assert_eq!(r.0, Some(1));
    assert!(choose_research(&mut r, 3, &m));
    assert_eq!(r.0, Some(3));
}

#[test]
fn a_technology_unlocks_what_requires_it() {
    let items = vec![(Some(2), false), (None, false), (Some(2), true), (Some(3), false), (Some(2), false)];
    assert_eq!(tech_unlocks(2, &items), vec![0, 4]);
    assert_eq!(tech_unlocks(5, &items), Vec::<usize>::new());
}
