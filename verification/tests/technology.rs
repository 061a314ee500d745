use civ_remastered::tech::{
    ai_select_tech, can_be_researched, initial_tech_cost_manager, initial_tech_state_manager, is_researched,
    limit_overflow_science, process_science_on_turn_start, remaining_science_to_tech, turns_to_tech,
    update_tech_states, OverflowScience, ResearchingTech, ScienceFromResearchAgreements, ScienceOfLast8Turns,
    TechCostManager, TechInfo, TechProgressManager, TechResearchedMessage, TechRules, TechState, TechStateManager,
};
use std::collections::HashMap;

// 0: Agriculture (starting, era 0), 1: Pottery (era 0, needs 0), 2: Writing (era 0, needs 0),
// 3: Philosophy (era 1, needs 1 and 2), 4: Future Tech (era 2, needs 3, repeatable)
fn rules() -> TechRules {
    let t = |cost: i32, era: usize, prerequisites: Vec<usize>, repeat: bool, start: bool| TechInfo {
        cost,
        era,
        prerequisites,
        continually_researchable: repeat,
        starting_tech: start,
    };
    TechRules {
        technologies: vec![
            t(20, 0, vec![], false, true),
            t(35, 0, vec![0], false, false),
            t(35, 0, vec![0], false, false),
            t(100, 1, vec![1, 2], false, false),
            t(500, 2, vec![3], true, false),
        ],
        future_tech: 4,
        era_count: 3,
    }
}

use TechState::{Available, Locked, Researched, ResearchedAndRepeatable};

#[test]
fn tech_state_defaults_to_locked() {
    assert_eq!(TechState::default(), Locked);
}

#[test]
fn researched_states() {
    let m = TechStateManager(vec![Researched, ResearchedAndRepeatable, Available, Locked, Locked]);
    assert!(is_researched(0, &m));
    assert!(is_researched(1, &m));
    assert!(!is_researched(2, &m));
    assert!(!is_researched(3, &m));
}

#[test]
fn research_needs_prerequisites() {
    let r = rules();
    let m = TechStateManager(vec![Researched, Researched, Available, Locked, Locked]);
    assert!(!can_be_researched(0, &m, &r));
    assert!(can_be_researched(2, &m, &r));
    assert!(!can_be_researched(3, &m, &r));
    let m = TechStateManager(vec![Researched, Researched, Researched, Researched, ResearchedAndRepeatable]);
    assert!(can_be_researched(4, &m, &r));
    assert!(!can_be_researched(3, &m, &r));
}

#[test]
fn overflow_is_capped() {
    let r = rules();
    assert_eq!(limit_overflow_science(30, 0, 3, &r), 20);
    assert_eq!(limit_overflow_science(30, 0, 5, &r), 25);
    assert_eq!(limit_overflow_science(10, 0, 5, &r), 10);
    assert_eq!(limit_overflow_science(-4, 3, 1, &r), -4);
}

#[test]
fn finishing_unlocks_followers() {
    let r = rules();
    let mut m = TechStateManager(vec![Researched, Researched, Available, Locked, Locked]);
    update_tech_states(&mut m, 2, &r);
    assert_eq!(m.0, vec![Researched, Researched, Researched, Available, Locked]);
}

#[test]
fn future_tech_stays_repeatable() {
    let r = rules();
    let mut m = TechStateManager(vec![Researched, Researched, Researched, Researched, Available]);
    update_tech_states(&mut m, 4, &r);
    assert_eq!(m.0[4], ResearchedAndRepeatable);
    update_tech_states(&mut m, 4, &r);
    assert_eq!(m.0[4], ResearchedAndRepeatable);
}

struct Nation {
    researching: ResearchingTech,
    progress: TechProgressManager,
    states: TechStateManager,
    costs: TechCostManager,
    overflow: OverflowScience,
    last8: ScienceOfLast8Turns,
    agreements: ScienceFromResearchAgreements,
}

fn nation() -> Nation {
    let mut costs = HashMap::new();
    for (t, c) in [(0usize, 20), (1, 35), (2, 35), (3, 100), (4, 500)] {
        costs.insert(t, c);
    }
    Nation {
        researching: ResearchingTech(Some(1)),
        progress: TechProgressManager(HashMap::new()),
        states: TechStateManager(vec![Researched, Available, Available, Locked, Locked]),
        costs: TechCostManager(costs),
        overflow: OverflowScience(0),
        last8: ScienceOfLast8Turns([0; 8]),
        agreements: ScienceFromResearchAgreements(0),
    }
}

fn turn(n: &mut Nation, turn_number: u32, science: i32) -> Option<TechResearchedMessage> {
    process_science_on_turn_start(
        turn_number,
        77,
        science,
        &mut n.researching,
        &mut n.progress,
        &mut n.states,
        &mut n.costs,
        &mut n.overflow,
        &mut n.last8,
        &mut n.agreements,
        &rules(),
    )
}

#[test]
fn no_science_on_turn_zero() {
    let mut n = nation();
    assert_eq!(turn(&mut n, 0, 10), None);
    assert!(n.progress.0.is_empty());
    assert_eq!(n.last8.0, [0; 8]);
}

#[test]
fn science_accumulates_then_finishes() {
    let mut n = nation();
    n.agreements.0 = 9;
    assert_eq!(turn(&mut n, 1, 10), None);
    // 10 + 9 / 3 = 13
    assert_eq!(n.progress.0.get(&1), Some(&13));
    assert_eq!(n.agreements.0, 0);
    assert_eq!(n.last8.0[1], 10);
    assert_eq!(turn(&mut n, 2, 10), None);
    assert_eq!(n.progress.0.get(&1), Some(&23));
    let msg = turn(&mut n, 9, 20);
    assert_eq!(msg, Some(TechResearchedMessage { nation: 77, tech: 1 }));
    // 43 - 35 = 8 carried over, under the cap max(20 * 5, 35)
    assert_eq!(n.overflow.0, 8);
    assert_eq!(n.progress.0.get(&1), None);
    assert_eq!(n.costs.0.get(&1), None);
    assert_eq!(n.researching.0, None);
    assert_eq!(n.states.0[1], Researched);
    assert_eq!(n.last8.0[1], 20);
}

#[test]
fn carried_science_is_spent_and_capped() {
    let mut n = nation();
    n.researching.0 = Some(2);
    n.overflow.0 = 500;
    let msg = turn(&mut n, 3, 1);
    assert_eq!(msg, Some(TechResearchedMessage { nation: 77, tech: 2 }));
    // 501 - 35 = 466, capped at max(1 * 5, 35) = 35
    assert_eq!(n.overflow.0, 35);
}

#[test]
fn future_tech_keeps_its_cost() {
    let mut n = nation();
    n.states = TechStateManager(vec![Researched, Researched, Researched, Researched, Available]);
    n.researching.0 = Some(4);
    let msg = turn(&mut n, 5, 600);
    assert_eq!(msg, Some(TechResearchedMessage { nation: 77, tech: 4 }));
    assert_eq!(n.costs.0.get(&4), Some(&500));
    assert_eq!(n.states.0[4], ResearchedAndRepeatable);
}

#[test]
fn computer_picks_cheapest_first_among_equals() {
    let r = rules();
    let m = TechStateManager(vec![Researched, Available, Available, Locked, Locked]);
    let mut researching = ResearchingTech(None);
    ai_select_tech(&mut researching, &m, &r);
    assert_eq!(researching.0, Some(1));
    let mut busy = ResearchingTech(Some(3));
    ai_select_tech(&mut busy, &m, &r);
    assert_eq!(busy.0, Some(3));
    let none = TechStateManager(vec![Researched, Researched, Researched, Locked, Locked]);
    let mut idle = ResearchingTech(None);
    ai_select_tech(&mut idle, &none, &r);
    assert_eq!(idle.0, None);
}

#[test]
fn starting_states_and_costs() {
    let r = rules();
    let m = initial_tech_state_manager(&r, 1);
    assert_eq!(m.0, vec![Available, Researched, Researched, Locked, Locked]);
    let costs = initial_tech_cost_manager(&r, 1, &vec![21, 36, 37, 101, 501]);
    assert_eq!(costs.0.len(), 2);
    assert_eq!(costs.0.get(&3), Some(&101));
    assert_eq!(costs.0.get(&4), Some(&501));
    assert_eq!(costs.0.get(&1), None);
}

#[test]
fn remaining_science() {
    let n = {
        let mut n = nation();
        n.progress.0.insert(3, 30);
        n.overflow.0 = 10;
        n
    };
    // locked: the carried science does not count
    assert_eq!(remaining_science_to_tech(3, &n.progress, &n.states, &n.costs, &n.overflow), 70);
    // available: it does
    assert_eq!(remaining_science_to_tech(1, &n.progress, &n.states, &n.costs, &n.overflow), 25);
    let mut rich = nation();
    rich.overflow.0 = 1000;
    assert_eq!(remaining_science_to_tech(1, &rich.progress, &rich.states, &rich.costs, &rich.overflow), 0);
}

#[test]
fn turns_shown_in_the_tree() {
    let n = nation();
    assert_eq!(turns_to_tech(1, 10, &n.progress, &n.states, &n.costs, &n.overflow), "4 turns");
    assert_eq!(turns_to_tech(1, 35, &n.progress, &n.states, &n.costs, &n.overflow), "1 turns");
    assert_eq!(turns_to_tech(3, 7, &n.progress, &n.states, &n.costs, &n.overflow), "15 turns");
    assert_eq!(turns_to_tech(1, 0, &n.progress, &n.states, &n.costs, &n.overflow), "∞ turns");
    assert_eq!(turns_to_tech(0, 10, &n.progress, &n.states, &n.costs, &n.overflow), "");
    let mut done = nation();
    done.overflow.0 = 100;
    assert_eq!(turns_to_tech(1, 10, &done.progress, &done.states, &done.costs, &done.overflow), "");
}

#[test]
fn a_turn_without_science_leaves_no_empty_progress_entry() {
    let mut n = nation();
    assert_eq!(turn(&mut n, 1, 0), None);
    assert!(n.progress.0.is_empty());
    assert_eq!(turn(&mut n, 2, 5), None);
    assert_eq!(n.progress.0.len(), 1);
    assert!(n.progress.0.values().all(|v| *v != 0));
}
