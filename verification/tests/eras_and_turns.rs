use civ_remastered::era::{all_techs_of_era_researched, next_era, update_era_on_tech_researched, EraComponent};
use civ_remastered::tech::{TechInfo, TechResearchedMessage, TechRules, TechState, TechStateManager};
use civ_remastered::turn::{advance_turn_queue, auto_end_enemy_turn, initialize_turn_system, TurnManager, TurnPhase};

fn rules() -> TechRules {
    let t = |era: usize| TechInfo { cost: 10, era, prerequisites: vec![], continually_researchable: false, starting_tech: false };
    TechRules { technologies: vec![t(0), t(0), t(1), t(2)], future_tech: 3, era_count: 3 }
}

use TechState::{Available, Locked, Researched, ResearchedAndRepeatable};

#[test]
fn eras_follow_each_other() {
    let r = rules();
    assert_eq!(next_era(0, &r), Some(1));
    assert_eq!(next_era(1, &r), Some(2));
    assert_eq!(next_era(2, &r), None);
    assert_eq!(next_era(usize::MAX, &r), None);
}

#[test]
fn era_done_only_when_every_tech_is_researched() {
    let r = rules();
    assert!(all_techs_of_era_researched(0, &TechStateManager(vec![Researched, Researched, Locked, Locked]), &r));
    assert!(!all_techs_of_era_researched(0, &TechStateManager(vec![Researched, ResearchedAndRepeatable, Locked, Locked]), &r));
    assert!(!all_techs_of_era_researched(0, &TechStateManager(vec![Researched, Available, Locked, Locked]), &r));
}

#[test]
fn researching_a_tech_of_the_next_era_moves_on() {
    let r = rules();
    let states = TechStateManager(vec![Researched, Available, Researched, Locked]);
    let mut era = EraComponent(0);
    let msgs = vec![TechResearchedMessage { nation: 1, tech: 2 }];
    update_era_on_tech_researched(&msgs, 1, &mut era, &states, &r);
    assert_eq!(era, EraComponent(1));
}

#[test]
fn finishing_the_era_moves_on_once_per_message() {
    let r = rules();
    let states = TechStateManager(vec![Researched, Researched, Researched, Researched]);
    let mut era = EraComponent(0);
    let msgs = vec![
        TechResearchedMessage { nation: 1, tech: 1 },
        TechResearchedMessage { nation: 2, tech: 1 },
        TechResearchedMessage { nation: 1, tech: 0 },
        TechResearchedMessage { nation: 1, tech: 0 },
    ];
    update_era_on_tech_researched(&msgs, 1, &mut era, &states, &r);
    // era 0 done -> 1, era 1 done -> 2, last era stays
    assert_eq!(era, EraComponent(2));
}

#[test]
fn messages_of_other_nations_change_nothing() {
    let r = rules();
    let states = TechStateManager(vec![Researched, Researched, Researched, Researched]);
    let mut era = EraComponent(0);
    update_era_on_tech_researched(&vec![TechResearchedMessage { nation: 5, tech: 2 }], 1, &mut era, &states, &r);
    assert_eq!(era, EraComponent(0));
}

#[test]
fn turn_order_is_sorted_by_entity() {
    let (m, phase) = initialize_turn_system(&vec![30, 10, 20], 20);
    assert_eq!(m.turn_queue, vec![10, 20, 30]);
    assert_eq!(m.current_index, 0);
    assert_eq!(m.turn_number, 0);
    assert_eq!(phase, TurnPhase::EnemyTurn);
    let (_, phase) = initialize_turn_system(&vec![30, 10, 20], 10);
    assert_eq!(phase, TurnPhase::PlayTurn);
}

#[test]
fn one_turn_per_round_of_nations() {
    let mut m = TurnManager { turn_queue: vec![10, 20, 30], current_index: 0, turn_number: 4 };
    assert_eq!(m.current_nation_entity(), 10);
    assert_eq!(advance_turn_queue(&mut m, 20), Some(TurnPhase::PlayTurn));
    assert_eq!((m.current_index, m.turn_number), (1, 4));
    assert_eq!(advance_turn_queue(&mut m, 20), Some(TurnPhase::EnemyTurn));
    assert_eq!((m.current_index, m.turn_number), (2, 4));
    assert_eq!(advance_turn_queue(&mut m, 20), Some(TurnPhase::EnemyTurn));
    assert_eq!((m.current_index, m.turn_number), (0, 5));
    assert_eq!(m.current_nation_entity(), 10);
}

#[test]
fn empty_queue_stands_still() {
    let mut m = TurnManager { turn_queue: vec![], current_index: 0, turn_number: 2 };
    assert_eq!(advance_turn_queue(&mut m, 1), None);
    assert_eq!((m.current_index, m.turn_number), (0, 2));
}

#[test]
fn computer_turns_end_by_themselves() {
    assert!(auto_end_enemy_turn(TurnPhase::EnemyTurn));
    assert!(!auto_end_enemy_turn(TurnPhase::PlayTurn));
}
