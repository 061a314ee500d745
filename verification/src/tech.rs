//! Technologies: which of them a nation has researched, which it may research next,
//! how science accumulates on the one being researched, and what is left to pay.
//!
//! A technology is named by its index in the table of [`TechRules`].

use crate::construction::decimal_string;
use std::collections::HashMap;
use vstd::prelude::*;

verus! {

/// How far a nation has come with one technology.
#[derive(Clone, Copy, Debug, PartialEq, Eq, Structural)]
pub enum TechState {
    /// Its prerequisites are researched; it may be researched now.
    Available,
    /// It is researched.
    Researched,
    /// It is researched and may be researched again.
    ResearchedAndRepeatable,
    /// Some prerequisite is not researched yet.
    Locked,
}

impl Default for TechState {
    fn default() -> (r: Self)
        ensures
            r == TechState::Locked,
    {
        TechState::Locked
    }
}

/// What the rules say of one technology.
#[derive(Clone, Debug)]
pub struct TechInfo {
    /// Science it costs in the rules' table.
    pub cost: i32,
    /// The era it belongs to, by index.
    pub era: usize,
    /// The technologies that must be researched first.
    pub prerequisites: Vec<usize>,
    /// It carries the unique "Can be continually researched".
    pub continually_researchable: bool,
    /// It carries the unique "Starting tech".
    pub starting_tech: bool,
}

/// The table of technologies.
#[derive(Clone, Debug)]
pub struct TechRules {
    pub technologies: Vec<TechInfo>,
    /// The technology that is researched again and again once the tree is done.
    pub future_tech: usize,
    /// How many eras there are.
    pub era_count: usize,
}

impl TechRules {
    /// Every index in the table names one of its technologies or eras.
    pub open spec fn well_formed(&self) -> bool {
        &&& self.future_tech < self.technologies.len()
        &&& forall|t: int, j: int|
            0 <= t < self.technologies.len() && 0 <= j < self.technologies@[t].prerequisites.len()
                ==> (#[trigger] self.technologies@[t].prerequisites@[j]) < self.technologies.len()
        &&& forall|t: int|
            0 <= t < self.technologies.len() ==> (#[trigger] self.technologies@[t]).era
                < self.era_count
    }

    pub open spec fn tech_count(&self) -> int {
        self.technologies.len() as int
    }

    pub open spec fn cost(&self, t: int) -> int {
        self.technologies@[t].cost as int
    }
}

/// The state of every technology for one nation, by technology index.
#[derive(Clone, Debug)]
pub struct TechStateManager(pub Vec<TechState>);

/// The technology the nation is researching, if any.
#[derive(Clone, Debug)]
pub struct ResearchingTech(pub Option<usize>);

/// Science already put into technologies that are begun and not finished; an entry is
/// never 0, and a technology that never received science has none.
#[derive(Clone, Debug)]
pub struct TechProgressManager(pub HashMap<usize, i32>);

/// Science each technology costs this nation; a finished technology that cannot be
/// researched again has no entry.
#[derive(Clone, Debug)]
pub struct TechCostManager(pub HashMap<usize, i32>);

/// Science left over from the last finished technology, carried to the next one.
#[derive(Clone, Copy, Debug)]
pub struct OverflowScience(pub i32);

/// Science granted by research agreements, spent at the next turn start.
#[derive(Clone, Copy, Debug)]
pub struct ScienceFromResearchAgreements(pub i32);

/// The science per turn of the last eight turns, by turn number modulo eight.
#[derive(Clone, Copy, Debug)]
pub struct ScienceOfLast8Turns(pub [i32; 8]);

/// Marks a nation that takes part in research.
#[derive(Clone, Copy, Debug)]
pub struct TechSystem;

/// Sent when a nation finishes a technology.
#[derive(Clone, Copy, Debug, PartialEq, Eq, Structural)]
pub struct TechResearchedMessage {
    pub nation: u64,
    pub tech: usize,
}

/// The technology counts as researched.
pub open spec fn spec_is_researched(states: Seq<TechState>, t: int) -> bool {
    states[t] is Researched || states[t] is ResearchedAndRepeatable
}

/// The technology may be researched: it is not researched yet, or it may be
/// researched again, and all its prerequisites are researched.
pub open spec fn spec_can_be_researched(rules: TechRules, states: Seq<TechState>, t: int) -> bool {
    &&& (!spec_is_researched(states, t) || rules.technologies@[t].continually_researchable)
    &&& forall|j: int|
        0 <= j < rules.technologies@[t].prerequisites.len() ==> spec_is_researched(
            states,
            #[trigger] rules.technologies@[t].prerequisites@[j] as int,
        )
}

/// The state a technology takes when it is finished.
pub open spec fn finished_state(rules: TechRules, states: Seq<TechState>, t: int) -> TechState {
    if states[t] == TechState::Available && t != rules.future_tech {
        TechState::Researched
    } else {
        TechState::ResearchedAndRepeatable
    }
}

/// The states after technology `t` is finished: `t` takes its finished state, then
/// every locked technology that may now be researched becomes available.
pub open spec fn states_after_research(rules: TechRules, states: Seq<TechState>, t: int) -> Seq<
    TechState,
> {
    let mid = states.update(t, finished_state(rules, states, t));
    Seq::new(
        mid.len(),
        |u: int|
            if mid[u] == TechState::Locked && spec_can_be_researched(rules, mid, u) {
                TechState::Available
            } else {
                mid[u]
            },
    )
}

/// Whether the technology is researched.
pub fn is_researched(tech: usize, tech_state_manager: &TechStateManager) -> (r: bool)
    requires
        tech < tech_state_manager.0.len(),
    ensures
        r == spec_is_researched(tech_state_manager.0@, tech as int),
{
    match tech_state_manager.0[tech] {
        TechState::Researched | TechState::ResearchedAndRepeatable => true,
        _ => false,
    }
}

/// Whether the technology may be researched now.
pub fn can_be_researched(tech: usize, tech_state_manager: &TechStateManager, rules: &TechRules) -> (r:
    bool)
    requires
        rules.well_formed(),
        tech_state_manager.0.len() == rules.tech_count(),
        tech < rules.tech_count(),
    ensures
        r == spec_can_be_researched(*rules, tech_state_manager.0@, tech as int),
{
    let info = &rules.technologies[tech];
    if is_researched(tech, tech_state_manager) && !info.continually_researchable {
        return false;
    }
    let mut j: usize = 0;
    while j < info.prerequisites.len()
        invariant
            rules.well_formed(),
            tech_state_manager.0.len() == rules.tech_count(),
            tech < rules.tech_count(),
            *info == rules.technologies@[tech as int],
            0 <= j <= info.prerequisites.len(),
            forall|i: int|
                0 <= i < j ==> spec_is_researched(
                    tech_state_manager.0@,
                    #[trigger] info.prerequisites@[i] as int,
                ),
        decreases info.prerequisites.len() - j,
    {
        let p = info.prerequisites[j];
        assert(p == rules.technologies@[tech as int].prerequisites@[j as int]);
        if !is_researched(p, tech_state_manager) {
            return false;
        }
        j = j + 1;
    }
    true
}

/// Caps the science carried over from a finished technology: at most five turns of
/// science, or the technology's cost if that is more.
pub fn limit_overflow_science(
    overflow: i32,
    current_tech: usize,
    science_per_turn: i32,
    rules: &TechRules,
) -> (r: i32)
    requires
        current_tech < rules.tech_count(),
        i32::MIN <= science_per_turn * 5 <= i32::MAX,
    ensures
        r == vstd::math::min(
            overflow as int,
            vstd::math::max(science_per_turn * 5, rules.cost(current_tech as int)),
        ),
{
    let tech_cost = rules.technologies[current_tech].cost;
    let five_turns = science_per_turn * 5;
    let cap = if five_turns >= tech_cost {
        five_turns
    } else {
        tech_cost
    };
    if overflow <= cap {
        overflow
    } else {
        cap
    }
}

/// Records that `current_tech` is finished: it becomes researched (or researched
/// and repeatable, for the future technology or one that already was), and every
/// locked technology whose prerequisites are now all researched becomes available.
pub fn update_tech_states(tech_state_manager: &mut TechStateManager, current_tech: usize, rules: &TechRules)
    requires
        rules.well_formed(),
        old(tech_state_manager).0.len() == rules.tech_count(),
        current_tech < rules.tech_count(),
        old(tech_state_manager).0@[current_tech as int] is Available || old(
            tech_state_manager,
        ).0@[current_tech as int] is ResearchedAndRepeatable,
    ensures
        final(tech_state_manager).0@ == states_after_research(
            *rules,
            old(tech_state_manager).0@,
            current_tech as int,
        ),
{
    let ghost old_states = tech_state_manager.0@;
    if tech_state_manager.0[current_tech] == TechState::Available && current_tech != rules.future_tech {
        tech_state_manager.0.set(current_tech, TechState::Researched);
    } else {
        tech_state_manager.0.set(current_tech, TechState::ResearchedAndRepeatable);
    }
    let ghost mid = tech_state_manager.0@;
    assert(mid == old_states.update(
        current_tech as int,
        finished_state(*rules, old_states, current_tech as int),
    ));
    let n = tech_state_manager.0.len();
    let mut should_update: Vec<bool> = Vec::new();
    let mut t: usize = 0;
    while t < n
        invariant
            rules.well_formed(),
            n == rules.tech_count(),
            tech_state_manager.0@ == mid,
            mid.len() == n,
            0 <= t <= n,
            should_update.len() == t,
            forall|u: int|
                0 <= u < t ==> #[trigger] should_update@[u] == (mid[u] == TechState::Locked
                    && spec_can_be_researched(*rules, mid, u)),
        decreases n - t,
    {
        let flag = tech_state_manager.0[t] == TechState::Locked && can_be_researched(
            t,
            tech_state_manager,
            rules,
        );
        should_update.push(flag);
        t = t + 1;
    }
    let mut t: usize = 0;
    while t < n
        invariant
            n == rules.tech_count(),
            mid.len() == n,
            tech_state_manager.0.len() == n,
            should_update.len() == n,
            0 <= t <= n,
            forall|u: int|
                0 <= u < n ==> #[trigger] should_update@[u] == (mid[u] == TechState::Locked
                    && spec_can_be_researched(*rules, mid, u)),
            forall|u: int|
                0 <= u < t ==> #[trigger] tech_state_manager.0@[u] == if should_update@[u] {
                    TechState::Available
                } else {
                    mid[u]
                },
            forall|u: int| t <= u < n ==> #[trigger] tech_state_manager.0@[u] == mid[u],
        decreases n - t,
    {
        if should_update[t] {
            tech_state_manager.0.set(t, TechState::Available);
        }
        t = t + 1;
    }
    assert(tech_state_manager.0@ =~= states_after_research(
        *rules,
        old_states,
        current_tech as int,
    ));
}

/// The science put into a technology so far (nothing when it is not begun).
pub open spec fn progress_of(progress: Map<usize, i32>, t: usize) -> int {
    if progress.contains_key(t) {
        progress[t] as int
    } else {
        0
    }
}

/// A third of the agreement science, rounded toward zero.
pub open spec fn agreement_boost(a: i32) -> int {
    if a >= 0 {
        a as int / 3
    } else {
        -((-a) / 3)
    }
}

/// The science spent on the researched technology this turn: the turn's science,
/// a third of any research agreement science, and what was carried over.
pub open spec fn final_science(science_per_turn: i32, agreements: i32, overflow: i32) -> int {
    science_per_turn + agreement_boost(agreements) + overflow
}

fn third_toward_zero(a: i32) -> (r: i32)
    ensures
        r == agreement_boost(a),
{
    if a >= 0 {
        a / 3
    } else {
        let m: i64 = -(a as i64);
        let q: i64 = m / 3;
        -(q as i32)
    }
}

/// At the start of a nation's turn, spends its science on the technology it
/// researches, and finishes that technology when the science put into it reaches
/// its cost. Nothing happens on turn 0.
///
/// The turn's science is also recorded among the last eight turns. Research
/// agreement science (a third of it) and the carried-over science are added and
/// then cleared. On finishing, the excess, capped by [`limit_overflow_science`],
/// is carried over, the technology leaves the progress table and the researched
/// slot, leaves the cost table unless it is the future technology, the states are
/// updated by [`update_tech_states`], and a message names the nation and technology.
pub fn process_science_on_turn_start(
    turn_number: u32,
    nation: u64,
    science_per_turn: i32,
    researching_tech: &mut ResearchingTech,
    tech_progress: &mut TechProgressManager,
    tech_state_manager: &mut TechStateManager,
    tech_cost_manager: &mut TechCostManager,
    overflow_science: &mut OverflowScience,
    science_of_last_8_turns: &mut ScienceOfLast8Turns,
    science_from_research_agreements: &mut ScienceFromResearchAgreements,
    rules: &TechRules,
) -> (r: Option<TechResearchedMessage>)
    requires
        rules.well_formed(),
        old(tech_state_manager).0.len() == rules.tech_count(),
        turn_number != 0 ==> {
            let t = old(researching_tech).0.unwrap();
            let fs = final_science(
                science_per_turn,
                old(science_from_research_agreements).0,
                old(overflow_science).0,
            );
            let total = progress_of(old(tech_progress).0@, t) + fs;
            &&& old(researching_tech).0 is Some
            &&& t < rules.tech_count()
            &&& old(tech_cost_manager).0@.contains_key(t)
            &&& i32::MIN <= science_per_turn + agreement_boost(old(science_from_research_agreements).0) <= i32::MAX
            &&& i32::MIN <= fs <= i32::MAX
            &&& i32::MIN <= total <= i32::MAX
            &&& (total >= old(tech_cost_manager).0@[t] ==> {
                &&& i32::MIN <= total - old(tech_cost_manager).0@[t] <= i32::MAX
                &&& i32::MIN <= science_per_turn * 5 <= i32::MAX
                &&& (old(tech_state_manager).0@[t as int] is Available || old(
                    tech_state_manager,
                ).0@[t as int] is ResearchedAndRepeatable)
            })
        },
    ensures
        (forall|k: usize| #[trigger] old(tech_progress).0@.contains_key(k) ==> old(tech_progress).0@[k] != 0)
            ==> (forall|k: usize| #[trigger] final(tech_progress).0@.contains_key(k) ==> final(tech_progress).0@[k] != 0),
        (forall|k: usize| #[trigger] old(tech_cost_manager).0@.contains_key(k) ==> old(tech_cost_manager).0@[k] != 0)
            ==> (forall|k: usize| #[trigger] final(tech_cost_manager).0@.contains_key(k) ==> final(tech_cost_manager).0@[k] != 0),
        turn_number == 0 ==> {
            &&& r is None
            &&& final(researching_tech).0 == old(researching_tech).0
            &&& final(tech_progress).0@ == old(tech_progress).0@
            &&& final(tech_state_manager).0@ == old(tech_state_manager).0@
            &&& final(tech_cost_manager).0@ == old(tech_cost_manager).0@
            &&& final(overflow_science).0 == old(overflow_science).0
            &&& final(science_of_last_8_turns).0@ == old(science_of_last_8_turns).0@
            &&& final(science_from_research_agreements).0 == old(science_from_research_agreements).0
        },
        turn_number != 0 ==> {
            let t = old(researching_tech).0.unwrap();
            let cost = old(tech_cost_manager).0@[t];
            let total = progress_of(old(tech_progress).0@, t) + final_science(
                science_per_turn,
                old(science_from_research_agreements).0,
                old(overflow_science).0,
            );
            &&& final(science_of_last_8_turns).0@ == old(science_of_last_8_turns).0@.update(
                turn_number as int % 8,
                science_per_turn,
            )
            &&& final(science_from_research_agreements).0 == 0
            &&& if total >= cost {
                &&& r == Some(TechResearchedMessage { nation, tech: t })
                &&& final(overflow_science).0 == vstd::math::min(
                    total - cost,
                    vstd::math::max(science_per_turn * 5, rules.cost(t as int)),
                )
                &&& final(tech_progress).0@ == old(tech_progress).0@.remove(t)
                &&& final(researching_tech).0 is None
                &&& final(tech_cost_manager).0@ == if t != rules.future_tech {
                    old(tech_cost_manager).0@.remove(t)
                } else {
                    old(tech_cost_manager).0@
                }
                &&& final(tech_state_manager).0@ == states_after_research(
                    *rules,
                    old(tech_state_manager).0@,
                    t as int,
                )
            } else {
                &&& r is None
                &&& final(overflow_science).0 == 0
                &&& final(tech_progress).0@ == if total == 0 {
                    old(tech_progress).0@.remove(t)
                } else {
                    old(tech_progress).0@.insert(t, total as i32)
                }
                &&& final(researching_tech).0 == old(researching_tech).0
                &&& final(tech_cost_manager).0@ == old(tech_cost_manager).0@
                &&& final(tech_state_manager).0@ == old(tech_state_manager).0@
            }
        },
{
    broadcast use vstd::std_specs::hash::group_hash_axioms;

    let turn = turn_number;
    if turn == 0 {
        return None;
    }
    science_of_last_8_turns.0[(turn % 8) as usize] = science_per_turn;
    let current_tech = match researching_tech.0 {
        Some(tech) => tech,
        None => {
            return None;
        },
    };
    let mut final_science = science_per_turn;
    if science_from_research_agreements.0 != 0 {
        let boost = third_toward_zero(science_from_research_agreements.0);
        final_science = final_science + boost;
        science_from_research_agreements.0 = 0;
    }
    if overflow_science.0 != 0 {
        final_science = final_science + overflow_science.0;
        overflow_science.0 = 0;
    }
    let cost = match tech_cost_manager.0.get(&current_tech) {
        Some(c) => *c,
        None => {
            return None;
        },
    };
    let before = match tech_progress.0.get(&current_tech) {
        Some(v) => *v,
        None => 0,
    };
    let current = before + final_science;
    if current >= cost {
        let extra_science = current - cost;
        let limited = limit_overflow_science(extra_science, current_tech, science_per_turn, rules);
        overflow_science.0 = overflow_science.0 + limited;
        tech_progress.0.remove(&current_tech);
        researching_tech.0 = None;
        if current_tech != rules.future_tech {
            tech_cost_manager.0.remove(&current_tech);
        }
        update_tech_states(tech_state_manager, current_tech, rules);
        proof {
            assert(tech_progress.0@ =~= old(tech_progress).0@.remove(current_tech));
        }
        Some(TechResearchedMessage { nation, tech: current_tech })
    } else {
        if current == 0 {
            tech_progress.0.remove(&current_tech);
        } else {
            tech_progress.0.insert(current_tech, current);
        }
        None
    }
}

/// The technology is one the computer may choose: available, or researched and repeatable.
pub open spec fn ai_eligible(states: Seq<TechState>, t: int) -> bool {
    states[t] is Available || states[t] is ResearchedAndRepeatable
}

/// `t` is the eligible technology of least cost, the first in table order among equals.
pub open spec fn ai_choice(rules: TechRules, states: Seq<TechState>, t: int) -> bool {
    &&& 0 <= t < rules.tech_count()
    &&& ai_eligible(states, t)
    &&& forall|u: int|
        0 <= u < rules.tech_count() && #[trigger] ai_eligible(states, u) ==> rules.cost(t)
            < rules.cost(u) || (rules.cost(t) == rules.cost(u) && t <= u)
}

/// The computer's choice of research: when nothing is being researched, it takes the
/// cheapest technology it may research (by the rules' cost, the first in table order
/// among equals); when there is none, nothing changes.
pub fn ai_select_tech(
    researching_tech: &mut ResearchingTech,
    tech_state_manager: &TechStateManager,
    rules: &TechRules,
)
    requires
        tech_state_manager.0.len() == rules.tech_count(),
    ensures
        old(researching_tech).0 is Some ==> final(researching_tech).0 == old(researching_tech).0,
        old(researching_tech).0 is None ==> match final(researching_tech).0 {
            Some(t) => ai_choice(*rules, tech_state_manager.0@, t as int),
            None => forall|u: int|
                0 <= u < rules.tech_count() ==> !#[trigger] ai_eligible(tech_state_manager.0@, u),
        },
{
    if researching_tech.0.is_some() {
        return;
    }
    let n = rules.technologies.len();
    let mut best: Option<usize> = None;
    let mut t: usize = 0;
    while t < n
        invariant
            n == rules.tech_count(),
            tech_state_manager.0.len() == n,
            0 <= t <= n,
            match best {
                Some(b) => b < t && ai_eligible(tech_state_manager.0@, b as int) && forall|u: int|
                    0 <= u < t && #[trigger] ai_eligible(tech_state_manager.0@, u) ==> rules.cost(
                        b as int,
                    ) < rules.cost(u) || (rules.cost(b as int) == rules.cost(u) && b <= u),
                None => forall|u: int| 0 <= u < t ==> !#[trigger] ai_eligible(tech_state_manager.0@, u),
            },
        decreases n - t,
    {
        let eligible = match tech_state_manager.0[t] {
            TechState::Available | TechState::ResearchedAndRepeatable => true,
            _ => false,
        };
        if eligible {
            match best {
                Some(b) => {
                    if rules.technologies[t].cost < rules.technologies[b].cost {
                        best = Some(t);
                    }
                },
                None => {
                    best = Some(t);
                },
            }
        }
        t = t + 1;
    }
    researching_tech.0 = best;
}

/// The player picks `tech` on the technology screen: it becomes the research when it is
/// available or researched and repeatable (the screen then closes); otherwise nothing
/// changes. Says whether it was taken.
pub fn choose_research(researching_tech: &mut ResearchingTech, tech: usize, tech_state_manager: &TechStateManager) -> (taken: bool)
    requires
        tech < tech_state_manager.0.len(),
    ensures
        taken == ai_eligible(tech_state_manager.0@, tech as int),
        taken ==> final(researching_tech).0 == Some(tech),
        !taken ==> final(researching_tech).0 == old(researching_tech).0,
{
    let eligible = match tech_state_manager.0[tech] {
        TechState::Available | TechState::ResearchedAndRepeatable => true,
        _ => false,
    };
    if eligible {
        researching_tech.0 = Some(tech);
    }
    eligible
}

/// The states a nation starts with: starting technologies are available, those of
/// eras before the starting era are researched, the rest are locked.
pub open spec fn initial_state(rules: TechRules, start_era: usize, t: int) -> TechState {
    if rules.technologies@[t].starting_tech {
        TechState::Available
    } else if rules.technologies@[t].era < start_era {
        TechState::Researched
    } else {
        TechState::Locked
    }
}

/// The technology states every nation starts with, for a game begun in `start_era`.
pub fn initial_tech_state_manager(rules: &TechRules, start_era: usize) -> (r: TechStateManager)
    ensures
        r.0.len() == rules.tech_count(),
        forall|t: int| 0 <= t < rules.tech_count() ==> #[trigger] r.0@[t] == initial_state(*rules, start_era, t),
{
    let n = rules.technologies.len();
    let mut states: Vec<TechState> = Vec::new();
    let mut t: usize = 0;
    while t < n
        invariant
            n == rules.tech_count(),
            0 <= t <= n,
            states.len() == t,
            forall|u: int| 0 <= u < t ==> #[trigger] states@[u] == initial_state(*rules, start_era, u),
        decreases n - t,
    {
        let info = &rules.technologies[t];
        let state = if info.starting_tech {
            TechState::Available
        } else if info.era < start_era {
            TechState::Researched
        } else {
            TechState::Locked
        };
        states.push(state);
        t = t + 1;
    }
    TechStateManager(states)
}

/// The science each technology of the starting era or later costs a nation, from
/// `costs`, its cost for that nation by technology index.
pub fn initial_tech_cost_manager(rules: &TechRules, start_era: usize, costs: &Vec<i32>) -> (r:
    TechCostManager)
    requires
        costs.len() == rules.tech_count(),
    ensures
        forall|t: usize|
            #[trigger] r.0@.contains_key(t) <==> (t < rules.tech_count()
                && rules.technologies@[t as int].era >= start_era),
        forall|t: usize| #[trigger] r.0@.contains_key(t) ==> r.0@[t] == costs@[t as int],
{
    broadcast use vstd::std_specs::hash::group_hash_axioms;

    let n = rules.technologies.len();
    let mut m: HashMap<usize, i32> = HashMap::new();
    let mut t: usize = 0;
    while t < n
        invariant
            n == rules.tech_count(),
            costs.len() == n,
            0 <= t <= n,
            forall|u: usize|
                #[trigger] m@.contains_key(u) <==> (u < t && rules.technologies@[u as int].era
                    >= start_era),
            forall|u: usize| #[trigger] m@.contains_key(u) ==> m@[u] == costs@[u as int],
        decreases n - t,
    {
        if rules.technologies[t].era >= start_era {
            m.insert(t, costs[t]);
        }
        t = t + 1;
    }
    TechCostManager(m)
}

/// `v` brought into the range of `u32`.
pub open spec fn clamp_u32(v: int) -> int {
    if v < 0 {
        0
    } else if v > u32::MAX {
        u32::MAX as int
    } else {
        v
    }
}

/// The science still needed to finish a technology: its cost, less what was put into
/// it, less the carried-over science when the technology may be researched now;
/// never below zero.
pub open spec fn spec_remaining_science(
    states: Seq<TechState>,
    progress: Map<usize, i32>,
    costs: Map<usize, i32>,
    overflow: i32,
    t: usize,
) -> int {
    let spare: int = if states[t as int] is Locked {
        0
    } else {
        overflow as int
    };
    clamp_u32(costs[t] - progress_of(progress, t) - spare)
}

/// The science still needed to finish a technology that is not researched yet.
pub fn remaining_science_to_tech(
    tech: usize,
    tech_progress: &TechProgressManager,
    tech_state_manager: &TechStateManager,
    tech_cost_manager: &TechCostManager,
    overflow_science: &OverflowScience,
) -> (r: u32)
    requires
        tech < tech_state_manager.0.len(),
        !(tech_state_manager.0@[tech as int] is Researched),
        tech_cost_manager.0@.contains_key(tech),
    ensures
        r == spec_remaining_science(
            tech_state_manager.0@,
            tech_progress.0@,
            tech_cost_manager.0@,
            overflow_science.0,
            tech,
        ),
{
    broadcast use vstd::std_specs::hash::group_hash_axioms;

    let spare_science: i32 = match tech_state_manager.0[tech] {
        TechState::Locked => 0,
        _ => overflow_science.0,
    };
    let cost = match tech_cost_manager.0.get(&tech) {
        Some(c) => *c,
        None => 0,
    };
    let researched = match tech_progress.0.get(&tech) {
        Some(v) => *v,
        None => 0,
    };
    let left: i64 = cost as i64 - researched as i64 - spare_science as i64;
    if left < 0 {
        0
    } else if left > u32::MAX as i64 {
        u32::MAX
    } else {
        left as u32
    }
}

/// The decimal digits of `n`.
pub open spec fn decimal(n: nat) -> Seq<char>
    decreases n,
{
    let d = (n % 10) as int;
    let c = if d == 0 {
        '0'
    } else if d == 1 {
        '1'
    } else if d == 2 {
        '2'
    } else if d == 3 {
        '3'
    } else if d == 4 {
        '4'
    } else if d == 5 {
        '5'
    } else if d == 6 {
        '6'
    } else if d == 7 {
        '7'
    } else if d == 8 {
        '8'
    } else {
        '9'
    };
    if n < 10 {
        seq![c]
    } else {
        decimal(n / 10).push(c)
    }
}

/// `n` written in decimal, then " turns".
fn turns_label(n: u32) -> (s: String)
    ensures
        s@ == decimal(n as nat) + " turns"@,
{
    let mut label = decimal_string(n as u64);
    label.append(" turns");
    label
}

/// The turns shown under a technology: nothing when it is researched or nothing is
/// left to pay, "∞ turns" without science, else the remaining science divided by the
/// science per turn, rounded up, at least one.
pub open spec fn spec_turns_to_tech(
    states: Seq<TechState>,
    progress: Map<usize, i32>,
    costs: Map<usize, i32>,
    overflow: i32,
    t: usize,
    science_per_turn: u32,
) -> Seq<char> {
    let remaining = spec_remaining_science(states, progress, costs, overflow, t);
    if states[t as int] is Researched || remaining == 0 {
        Seq::empty()
    } else if science_per_turn == 0 {
        "∞ turns"@
    } else {
        let turns = (remaining + science_per_turn - 1) / (science_per_turn as int);
        decimal((if turns < 1 {
            1
        } else {
            turns
        }) as nat) + " turns"@
    }
}

/// The number of turns left to finish a technology, as shown in the technology tree.
pub fn turns_to_tech(
    tech: usize,
    science_per_turn: u32,
    tech_progress: &TechProgressManager,
    tech_state_manager: &TechStateManager,
    tech_cost_manager: &TechCostManager,
    overflow_science: &OverflowScience,
) -> (r: String)
    requires
        tech < tech_state_manager.0.len(),
        !(tech_state_manager.0@[tech as int] is Researched) ==> tech_cost_manager.0@.contains_key(tech),
    ensures
        r@ == spec_turns_to_tech(
            tech_state_manager.0@,
            tech_progress.0@,
            tech_cost_manager.0@,
            overflow_science.0,
            tech,
            science_per_turn,
        ),
{
    if tech_state_manager.0[tech] == TechState::Researched {
        return String::new();
    }
    let remaining_cost = remaining_science_to_tech(
        tech,
        tech_progress,
        tech_state_manager,
        tech_cost_manager,
        overflow_science,
    );
    if remaining_cost == 0 {
        return String::new();
    }
    if science_per_turn == 0 {
        return "∞ turns".to_string();
    }
    let q = remaining_cost / science_per_turn;
    proof {
        let rem = remaining_cost as int;
        let spt = science_per_turn as int;
        assert(rem % spt != 0 ==> q < u32::MAX) by (nonlinear_arith)
            requires
                spt > 0,
                rem <= u32::MAX,
                q == rem / spt,
        ;
    }
    let ceil = if remaining_cost % science_per_turn == 0 {
        q
    } else {
        q + 1
    };
    proof {
        let rem = remaining_cost as int;
        let spt = science_per_turn as int;
        let c = ceil as int;
        assert((rem + spt - 1) / spt == c && c >= 1) by (nonlinear_arith)
            requires
                spt > 0,
                rem > 0,
                q == rem / spt,
                c == (if rem % spt == 0 {
                    q as int
                } else {
                    q as int + 1
                }),
        ;
    }
    let turns = if ceil < 1 {
        1
    } else {
        ceil
    };
    turns_label(turns)
}

/// Finishing a technology takes nothing back: whatever was researched stays researched,
/// and the finished technology is researched afterwards.
pub proof fn law_research_is_kept(rules: TechRules, states: Seq<TechState>, t: int, u: int)
    requires
        states.len() == rules.tech_count(),
        0 <= t < rules.tech_count(),
        0 <= u < rules.tech_count(),
    ensures
        spec_is_researched(states, u) ==> spec_is_researched(
            states_after_research(rules, states, t),
            u,
        ),
        spec_is_researched(states_after_research(rules, states, t), t),
{
}

/// After a technology is finished, no technology is left locked that could be researched.
pub proof fn law_no_researchable_tech_stays_locked(rules: TechRules, states: Seq<TechState>, t: int, u: int)
    requires
        rules.well_formed(),
        states.len() == rules.tech_count(),
        0 <= t < rules.tech_count(),
        0 <= u < rules.tech_count(),
    ensures
        states_after_research(rules, states, t)[u] is Locked ==> !spec_can_be_researched(
            rules,
            states_after_research(rules, states, t),
            u,
        ),
{
    let mid = states.update(t, finished_state(rules, states, t));
    let after = states_after_research(rules, states, t);
    assert forall|v: int| 0 <= v < rules.tech_count() implies spec_is_researched(after, v)
        == spec_is_researched(mid, v) by {}
    if after[u] is Locked {
        assert(mid[u] is Locked);
        assert(!spec_can_be_researched(rules, mid, u));
        if spec_can_be_researched(rules, after, u) {
            assert forall|j: int|
                0 <= j < rules.technologies@[u].prerequisites.len() implies spec_is_researched(
                mid,
                #[trigger] rules.technologies@[u].prerequisites@[j] as int,
            ) by {
                let p = rules.technologies@[u].prerequisites@[j] as int;
                assert(spec_is_researched(after, p));
            }
        }
    }
}


/// The label under a technology: nothing for a researched technology or when nothing
/// is left to pay; "∞ turns" without science; else the remaining science divided by
/// the science per turn, rounded up, then " turns".
pub proof fn law_turns_to_tech_label(
    states: Seq<TechState>,
    progress: Map<usize, i32>,
    costs: Map<usize, i32>,
    overflow: i32,
    t: usize,
    science_per_turn: u32,
)
    ensures
        ({
            let r = spec_remaining_science(states, progress, costs, overflow, t);
            let label = spec_turns_to_tech(states, progress, costs, overflow, t, science_per_turn);
            &&& states[t as int] is Researched ==> label == Seq::<char>::empty()
            &&& r == 0 ==> label == Seq::<char>::empty()
            &&& !(states[t as int] is Researched) && r > 0 && science_per_turn == 0 ==> label == "∞ turns"@
            &&& !(states[t as int] is Researched) && r > 0 && science_per_turn > 0 ==> label == decimal(
                ((r + science_per_turn - 1) / (science_per_turn as int)) as nat,
            ) + " turns"@
        }),
{
    let r = spec_remaining_science(states, progress, costs, overflow, t);
    if r > 0 && science_per_turn > 0 {
        let s = science_per_turn as int;
        assert((r + s - 1) / s >= 1) by (nonlinear_arith)
            requires
                r >= 1,
                s >= 1,
        ;
    }
}

} // verus!
