use civ_remastered::start_units::{game_initialization, UnitLineage};

const SETTLER: usize = 0;
const WARRIOR: usize = 1;

fn units() -> Vec<UnitLineage> {
    vec![
        UnitLineage { unique_to: None, replaces: None },
        UnitLineage { unique_to: None, replaces: None },
        // nation 2's own replacement of a settler, which does not count
        UnitLineage { unique_to: Some(2), replaces: Some(SETTLER) },
        UnitLineage { unique_to: None, replaces: None },
        // nation 0's two replacements of the warrior: the first one is taken
        UnitLineage { unique_to: Some(0), replaces: Some(WARRIOR) },
        UnitLineage { unique_to: Some(0), replaces: Some(WARRIOR) },
    ]
}

fn units_on(list: &[(usize, Vec<usize>)], tile: usize) -> Option<Vec<usize>> {
    list.iter().find(|(t, _)| *t == tile).map(|(_, u)| u.clone())
}

#[test]
fn each_civilization_starts_with_a_settler_and_its_warrior() {
    let r = game_initialization(&vec![(3, 0), (7, 1), (8, 2)], &vec![9, 3], &units(), WARRIOR, SETTLER);
    assert_eq!(r.0.len(), 4);
    assert_eq!(units_on(&r.0, 3), Some(vec![4, SETTLER, SETTLER]));
    assert_eq!(units_on(&r.0, 7), Some(vec![WARRIOR, SETTLER]));
    assert_eq!(units_on(&r.0, 8), Some(vec![WARRIOR, SETTLER]));
    assert_eq!(units_on(&r.0, 9), Some(vec![SETTLER]));
    assert_eq!(units_on(&r.0, 5), None);
}

#[test]
fn sides_sharing_a_tile_stack_there() {
    let r = game_initialization(&vec![(2, 1), (2, 0)], &vec![2, 2], &units(), WARRIOR, SETTLER);
    assert_eq!(r.0.len(), 1);
    assert_eq!(units_on(&r.0, 2), Some(vec![WARRIOR, SETTLER, 4, SETTLER, SETTLER, SETTLER]));
}

#[test]
fn no_sides_no_units() {
    let r = game_initialization(&vec![], &vec![], &units(), WARRIOR, SETTLER);
    assert!(r.0.is_empty());
}
