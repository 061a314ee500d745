//! The civilizations of a game: their treasury and culture, turn by turn.
//!
//! A nation is named by its index in the rules.

use crate::tech::{can_be_researched, spec_can_be_researched, TechRules, TechStateManager};
use vstd::prelude::*;

verus! {

/// One civilization's economy.
#[derive(Clone, Copy, Debug, PartialEq, Eq, Structural)]
pub struct CivData {
    pub nation: usize,
    pub gold: i32,
    pub gold_per_turn: i32,
    pub science_per_turn: i32,
    pub culture: i32,
    pub culture_per_turn: i32,
    pub is_human: bool,
}

/// A civilization at the start of a game: 500 gold, 3 science per turn, nothing else.
pub open spec fn starting_civ(nation: usize, is_human: bool) -> CivData {
    CivData {
        nation,
        gold: 500,
        gold_per_turn: 0,
        science_per_turn: 3,
        culture: 0,
        culture_per_turn: 0,
        is_human,
    }
}

/// The civilization after a turn: its gold and culture grow by their rates.
pub open spec fn civ_after_turn(c: CivData) -> CivData {
    CivData { gold: (c.gold + c.gold_per_turn) as i32, culture: (c.culture + c.culture_per_turn) as i32, ..c }
}

/// Its gold and culture can grow by a turn's rates.
pub open spec fn turn_fits(c: CivData) -> bool {
    &&& i32::MIN <= c.gold + c.gold_per_turn <= i32::MAX
    &&& i32::MIN <= c.culture + c.culture_per_turn <= i32::MAX
}

impl CivData {
    /// A civilization at the start of a game.
    pub fn new(nation: usize, is_human: bool) -> (r: Self)
        ensures
            r == starting_civ(nation, is_human),
    {
        CivData {
            nation,
            gold: if is_human {
                500
            } else {
                500
            },
            gold_per_turn: 0,
            science_per_turn: 3,
            culture: 0,
            culture_per_turn: 0,
            is_human,
        }
    }

    /// Ends the civilization's turn: gold and culture grow by their rates.
    pub fn end_turn(&mut self)
        requires
            turn_fits(*old(self)),
        ensures
            *final(self) == civ_after_turn(*old(self)),
    {
        self.gold = self.gold + self.gold_per_turn;
        self.culture = self.culture + self.culture_per_turn;
    }
}

/// One nation's research: where each technology stands, and the technologies it
/// means to research, the first of them being researched now.
#[derive(Clone, Debug)]
pub struct TechManager {
    pub states: TechStateManager,
    pub techs_to_research: Vec<usize>,
}

/// The research of every nation, by nation index.
#[derive(Clone, Debug)]
pub struct TechManagerMap(pub Vec<TechManager>);

/// Every nation but `nation` keeps its research, and `nation` keeps its states.
pub open spec fn others_kept(old_map: Seq<TechManager>, new_map: Seq<TechManager>, nation: usize) -> bool {
    &&& new_map.len() == old_map.len()
    &&& forall|n: int|
        0 <= n < old_map.len() ==> (#[trigger] new_map[n]).states.0@ == old_map[n].states.0@ && (n != nation
            ==> new_map[n].techs_to_research@ == old_map[n].techs_to_research@)
}

/// `t` is a technology the nation may research at the least cost in the rules, the
/// first in table order among equals.
pub open spec fn cheapest_researchable(rules: TechRules, states: Seq<crate::tech::TechState>, t: int) -> bool {
    &&& 0 <= t < rules.tech_count()
    &&& spec_can_be_researched(rules, states, t)
    &&& forall|u: int|
        0 <= u < rules.tech_count() && #[trigger] spec_can_be_researched(rules, states, u) ==> rules.cost(t) < rules.cost(
            u,
        ) || (rules.cost(t) == rules.cost(u) && t <= u)
}

impl CivData {
    /// Makes `tech` the one technology the nation's queue holds, when the map has the
    /// nation; the others keep theirs. Always says yes.
    pub fn start_research(&self, tech: usize, tech_manager_map: &mut TechManagerMap) -> (r: bool)
        ensures
            r,
            others_kept(old(tech_manager_map).0@, final(tech_manager_map).0@, self.nation),
            self.nation < old(tech_manager_map).0.len() ==> final(tech_manager_map).0@[self.nation as int].techs_to_research@
                == seq![tech],
    {
        if self.nation < tech_manager_map.0.len() {
            let ghost before = tech_manager_map.0@;
            let mut tm = tech_manager_map.0.remove(self.nation);
            let mut queue: Vec<usize> = Vec::new();
            queue.push(tech);
            tm.techs_to_research = queue;
            tech_manager_map.0.insert(self.nation, tm);
            proof {
                assert forall|n: int| 0 <= n < before.len() implies (#[trigger] tech_manager_map.0@[n]).states.0@
                    == before[n].states.0@ && (n != self.nation ==> tech_manager_map.0@[n].techs_to_research@
                    == before[n].techs_to_research@) by {
                    if n != self.nation {
                        assert(tech_manager_map.0@[n] == before[n]);
                    }
                }
            }
        }
        true
    }

    /// The computer picks its research: when its queue is empty, it starts the
    /// technology it may research at the least cost in the rules (the first in table
    /// order among equals, [`cheapest_researchable`]); with a technology under way, or
    /// none to research, nothing changes.
    pub fn ai_choose_research(&mut self, rules: &TechRules, tech_manager_map: &mut TechManagerMap)
        requires
            old(self).nation < old(tech_manager_map).0.len(),
            rules.well_formed(),
            old(tech_manager_map).0@[old(self).nation as int].states.0.len() == rules.tech_count(),
        ensures
            *final(self) == *old(self),
            others_kept(old(tech_manager_map).0@, final(tech_manager_map).0@, old(self).nation),
            ({
                let old_queue = old(tech_manager_map).0@[old(self).nation as int].techs_to_research@;
                let new_queue = final(tech_manager_map).0@[old(self).nation as int].techs_to_research@;
                let states = old(tech_manager_map).0@[old(self).nation as int].states.0@;
                if old_queue.len() > 0 {
                    new_queue == old_queue
                } else if exists|t: int| #[trigger] cheapest_researchable(*rules, states, t) {
                    new_queue.len() == 1 && cheapest_researchable(*rules, states, new_queue[0] as int)
                } else {
                    new_queue == old_queue
                }
            }),
    {
        let nation = self.nation;
        let tm = &tech_manager_map.0[nation];
        if tm.techs_to_research.len() > 0 {
            return;
        }
        let ghost states = tm.states.0@;
        let n = rules.technologies.len();
        let mut best: Option<usize> = None;
        let mut t: usize = 0;
        while t < n
            invariant
                n == rules.tech_count(),
                rules.well_formed(),
                tm.states.0@ == states,
                states.len() == n,
                0 <= t <= n,
                match best {
                    Some(b) => b < t && spec_can_be_researched(*rules, states, b as int) && forall|u: int|
                        0 <= u < t && #[trigger] spec_can_be_researched(*rules, states, u) ==> rules.cost(b as int)
                            < rules.cost(u) || (rules.cost(b as int) == rules.cost(u) && b <= u),
                    None => forall|u: int| 0 <= u < t ==> !#[trigger] spec_can_be_researched(*rules, states, u),
                },
            decreases n - t,
        {
            if can_be_researched(t, &tm.states, rules) {
                match best {
                    Some(b) => {
                        if rules.technologies[t].cost < rules.technologies[b].cost {
                            best = Some(t);
                        }
                    },
                    None => {
                        best = Some(t);
                    },
                }
            }
            t = t + 1;
        }
        match best {
            Some(b) => {
                assert(cheapest_researchable(*rules, states, b as int));
                self.start_research(b, tech_manager_map);
            },
            None => {
                assert forall|u: int| !cheapest_researchable(*rules, states, u) by {
                    if 0 <= u < n {
                        assert(!spec_can_be_researched(*rules, states, u));
                    }
                }
            },
        }
    }
}

/// All civilizations of a game, one entry per nation.
#[derive(Clone, Debug)]
pub struct CivilizationStates {
    pub civs: Vec<CivData>,
    pub turn: u32,
    pub player_nation: usize,
    pub enemy_nations: Vec<usize>,
}

/// No nation has two entries.
pub open spec fn one_entry_per_nation(civs: Seq<CivData>) -> bool {
    forall|i: int, j: int| 0 <= i < j < civs.len() ==> civs[i].nation != civs[j].nation
}

/// The entries after recording `c`: it replaces the entry of its nation, or is added.
pub open spec fn record(civs: Seq<CivData>, c: CivData) -> Seq<CivData> {
    if exists|i: int| 0 <= i < civs.len() && (#[trigger] civs[i]).nation == c.nation {
        civs.update(choose|i: int| 0 <= i < civs.len() && (#[trigger] civs[i]).nation == c.nation, c)
    } else {
        civs.push(c)
    }
}

/// The entries after recording, in order, the enemies `enemies[0..n]` as computer civilizations.
pub open spec fn record_enemies(civs: Seq<CivData>, enemies: Seq<usize>, n: int) -> Seq<CivData>
    decreases n,
{
    if n <= 0 {
        civs
    } else {
        record(record_enemies(civs, enemies, n - 1), starting_civ(enemies[n - 1], false))
    }
}

fn record_exec(civs: &mut Vec<CivData>, c: CivData)
    requires
        one_entry_per_nation(old(civs)@),
    ensures
        final(civs)@ == record(old(civs)@, c),
        one_entry_per_nation(final(civs)@),
{
    let mut i: usize = 0;
    while i < civs.len()
        invariant
            0 <= i <= civs.len(),
            civs@ == old(civs)@,
            one_entry_per_nation(civs@),
            forall|j: int| 0 <= j < i ==> (#[trigger] civs@[j]).nation != c.nation,
        decreases civs.len() - i,
    {
        if civs[i].nation == c.nation {
            let ghost before = civs@;
            proof {
                assert(before[i as int].nation == c.nation);
                let k = choose|k: int| 0 <= k < before.len() && (#[trigger] before[k]).nation == c.nation;
                assert(k == i as int) by {
                    if k < i as int {
                        assert(before[k].nation != c.nation);
                    } else if k > i as int {
                        assert(before[i as int].nation != before[k].nation);
                    }
                }
            }
            civs.set(i, c);
            proof {
                assert forall|a: int, b: int| 0 <= a < b < civs@.len() implies civs@[a].nation
                    != civs@[b].nation by {
                    if a != i as int && b != i as int {
                        assert(civs@[a] == before[a] && civs@[b] == before[b]);
                    } else if a == i as int {
                        assert(civs@[b] == before[b]);
                        assert(before[a].nation != before[b].nation);
                    } else {
                        assert(civs@[a] == before[a]);
                        assert(before[a].nation != before[b].nation);
                    }
                }
            }
            return;
        }
        i = i + 1;
    }
    let ghost before = civs@;
    civs.push(c);
    proof {
        assert forall|a: int, b: int| 0 <= a < b < civs@.len() implies civs@[a].nation != civs@[b].nation by {
            if b < before.len() {
                assert(civs@[a] == before[a] && civs@[b] == before[b]);
            } else {
                assert(civs@[a] == before[a]);
            }
        }
    }
}

impl CivilizationStates {
    /// The civilizations of a new game on turn 1: the player's, then each enemy's (a
    /// nation listed again replaces its earlier entry, as a map keyed by nation does).
    pub fn new(player: usize, enemies: Vec<usize>) -> (r: Self)
        ensures
            r.civs@ == record_enemies(seq![starting_civ(player, true)], enemies@, enemies.len() as int),
            one_entry_per_nation(r.civs@),
            r.turn == 1,
            r.player_nation == player,
            r.enemy_nations@ == enemies@,
    {
        let mut civs: Vec<CivData> = Vec::new();
        civs.push(CivData::new(player, true));
        let mut k: usize = 0;
        while k < enemies.len()
            invariant
                0 <= k <= enemies.len(),
                civs@ == record_enemies(seq![starting_civ(player, true)], enemies@, k as int),
                one_entry_per_nation(civs@),
            decreases enemies.len() - k,
        {
            record_exec(&mut civs, CivData::new(enemies[k], false));
            k = k + 1;
        }
        CivilizationStates { civs, turn: 1, player_nation: player, enemy_nations: enemies }
    }

    /// The player's civilization.
    pub fn player_data(&self) -> (r: &CivData)
        requires
            exists|i: int| 0 <= i < self.civs.len() && (#[trigger] self.civs@[i]).nation == self.player_nation,
        ensures
            r.nation == self.player_nation,
            self.civs@.contains(*r),
    {
        let mut i: usize = 0;
        while i < self.civs.len()
            invariant
                0 <= i <= self.civs.len(),
                exists|j: int| i <= j < self.civs.len() && (#[trigger] self.civs@[j]).nation == self.player_nation,
            decreases self.civs.len() - i,
        {
            if self.civs[i].nation == self.player_nation {
                return &self.civs[i];
            }
            i = i + 1;
        }
        &self.civs[0]
    }

    /// Whether the nation is one of the player's enemies.
    pub fn is_enemy(&self, nation: usize) -> (r: bool)
        ensures
            r == self.enemy_nations@.contains(nation),
    {
        let mut i: usize = 0;
        while i < self.enemy_nations.len()
            invariant
                0 <= i <= self.enemy_nations.len(),
                forall|j: int| 0 <= j < i ==> self.enemy_nations@[j] != nation,
            decreases self.enemy_nations.len() - i,
        {
            if self.enemy_nations[i] == nation {
                assert(self.enemy_nations@[i as int] == nation);
                return true;
            }
            i = i + 1;
        }
        false
    }

    /// Ends the turn for everyone: the turn count grows by one and every civilization's
    /// gold and culture grow by their rates.
    pub fn end_turn(&mut self)
        requires
            old(self).turn < u32::MAX,
            forall|i: int| 0 <= i < old(self).civs.len() ==> turn_fits(#[trigger] old(self).civs@[i]),
        ensures
            final(self).turn == old(self).turn + 1,
            final(self).civs.len() == old(self).civs.len(),
            forall|i: int|
                0 <= i < old(self).civs.len() ==> #[trigger] final(self).civs@[i] == civ_after_turn(
                    old(self).civs@[i],
                ),
            final(self).player_nation == old(self).player_nation,
            final(self).enemy_nations@ == old(self).enemy_nations@,
    {
        self.turn = self.turn + 1;
        let ghost c0 = self.civs@;
        let mut i: usize = 0;
        while i < self.civs.len()
            invariant
                0 <= i <= self.civs.len(),
                self.civs.len() == c0.len(),
                self.turn == old(self).turn + 1,
                self.player_nation == old(self).player_nation,
                self.enemy_nations@ == old(self).enemy_nations@,
                forall|j: int| 0 <= j < c0.len() ==> turn_fits(#[trigger] c0[j]),
                forall|j: int| 0 <= j < i ==> #[trigger] self.civs@[j] == civ_after_turn(c0[j]),
                forall|j: int| i <= j < self.civs.len() ==> #[trigger] self.civs@[j] == c0[j],
            decreases self.civs.len() - i,
        {
            let mut c = self.civs[i];
            c.end_turn();
            self.civs.set(i, c);
            i = i + 1;
        }
    }
}

} // verus!
