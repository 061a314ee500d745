//! Eras: a nation moves on to the next era when it researches a technology of that
//! era, or when every technology of its current era is researched.

use crate::tech::{TechResearchedMessage, TechRules, TechState, TechStateManager};
use vstd::prelude::*;

verus! {

/// The era a nation is in, by index.
#[derive(Clone, Copy, Debug, PartialEq, Eq, Structural)]
pub struct EraComponent(pub usize);

/// The era after `era`, or none for the last one.
pub open spec fn spec_next_era(era: usize, era_count: usize) -> Option<usize> {
    if era + 1 < era_count {
        Some((era + 1) as usize)
    } else {
        None
    }
}

/// The era that follows `era`, if there is one.
pub fn next_era(era: usize, rules: &TechRules) -> (r: Option<usize>)
    ensures
        r == spec_next_era(era, rules.era_count),
{
    if era < rules.era_count && rules.era_count - era > 1 {
        Some(era + 1)
    } else {
        None
    }
}

/// Every technology of the era is researched (and not merely repeatable).
pub open spec fn spec_all_techs_of_era_researched(rules: TechRules, states: Seq<TechState>, era: usize) -> bool {
    forall|t: int|
        0 <= t < rules.tech_count() && (#[trigger] rules.technologies@[t]).era == era ==> states[t]
            == TechState::Researched
}

/// Whether every technology of the era is researched.
pub fn all_techs_of_era_researched(era: usize, tech_state_manager: &TechStateManager, rules: &TechRules) -> (r:
    bool)
    requires
        tech_state_manager.0.len() == rules.tech_count(),
    ensures
        r == spec_all_techs_of_era_researched(*rules, tech_state_manager.0@, era),
{
    let n = rules.technologies.len();
    let mut t: usize = 0;
    while t < n
        invariant
            n == rules.tech_count(),
            tech_state_manager.0.len() == n,
            0 <= t <= n,
            forall|u: int|
                0 <= u < t && (#[trigger] rules.technologies@[u]).era == era ==> tech_state_manager.0@[u]
                    == TechState::Researched,
        decreases n - t,
    {
        if rules.technologies[t].era == era && tech_state_manager.0[t] != TechState::Researched {
            assert(rules.technologies@[t as int].era == era);
            return false;
        }
        t = t + 1;
    }
    true
}

/// The era after a nation finishes technology `tech` while in era `era`.
pub open spec fn era_step(rules: TechRules, states: Seq<TechState>, era: usize, tech: usize) -> usize {
    match spec_next_era(era, rules.era_count) {
        None => era,
        Some(next) => if rules.technologies@[tech as int].era == next
            || spec_all_techs_of_era_researched(rules, states, era) {
            next
        } else {
            era
        },
    }
}

/// The era of `nation` after the messages, read in order.
pub open spec fn era_after_messages(
    rules: TechRules,
    states: Seq<TechState>,
    era: usize,
    messages: Seq<TechResearchedMessage>,
    nation: u64,
) -> usize
    decreases messages.len(),
{
    if messages.len() == 0 {
        era
    } else {
        let e = era_after_messages(rules, states, era, messages.drop_last(), nation);
        let m = messages.last();
        if m.nation == nation {
            era_step(rules, states, e, m.tech)
        } else {
            e
        }
    }
}

/// Moves `nation` on through the eras as the messages of finished technologies say:
/// for each message of this nation, unless it is in the last era, it enters the next
/// era when the finished technology belongs to that era or when every technology of
/// its current era is researched.
pub fn update_era_on_tech_researched(
    messages: &Vec<TechResearchedMessage>,
    nation: u64,
    era_component: &mut EraComponent,
    tech_state_manager: &TechStateManager,
    rules: &TechRules,
)
    requires
        tech_state_manager.0.len() == rules.tech_count(),
        forall|i: int|
            0 <= i < messages.len() && (#[trigger] messages@[i]).nation == nation ==> messages@[i].tech
                < rules.tech_count(),
    ensures
        final(era_component).0 == era_after_messages(
            *rules,
            tech_state_manager.0@,
            old(era_component).0,
            messages@,
            nation,
        ),
{
    let mut i: usize = 0;
    while i < messages.len()
        invariant
            tech_state_manager.0.len() == rules.tech_count(),
            forall|k: int|
                0 <= k < messages.len() && (#[trigger] messages@[k]).nation == nation
                    ==> messages@[k].tech < rules.tech_count(),
            0 <= i <= messages.len(),
            era_component.0 == era_after_messages(
                *rules,
                tech_state_manager.0@,
                old(era_component).0,
                messages@.take(i as int),
                nation,
            ),
        decreases messages.len() - i,
    {
        let message = messages[i];
        proof {
            assert(messages@.take(i + 1).drop_last() =~= messages@.take(i as int));
            assert(messages@.take(i + 1).last() == message);
        }
        if message.nation == nation {
            let current_era = era_component.0;
            match next_era(current_era, rules) {
                None => {},
                Some(next) => {
                    if rules.technologies[message.tech].era == next {
                        era_component.0 = next;
                    } else if all_techs_of_era_researched(current_era, tech_state_manager, rules) {
                        era_component.0 = next;
                    }
                },
            }
        }
        i = i + 1;
    }
    assert(messages@.take(messages.len() as int) =~= messages@);
}

/// A nation's era never goes back, and it moves at most one era per finished technology.
pub proof fn law_era_moves_forward_one_at_a_time(
    rules: TechRules,
    states: Seq<TechState>,
    era: usize,
    messages: Seq<TechResearchedMessage>,
    nation: u64,
)
    ensures
        era <= era_after_messages(rules, states, era, messages, nation) <= era + messages.len(),
    decreases messages.len(),
{
    if messages.len() > 0 {
        law_era_moves_forward_one_at_a_time(rules, states, era, messages.drop_last(), nation);
    }
}

/// A nation in a valid era stays in a valid era.
pub proof fn law_era_stays_in_range(
    rules: TechRules,
    states: Seq<TechState>,
    era: usize,
    messages: Seq<TechResearchedMessage>,
    nation: u64,
)
    requires
        era < rules.era_count,
    ensures
        era_after_messages(rules, states, era, messages, nation) < rules.era_count,
    decreases messages.len(),
{
    if messages.len() > 0 {
        law_era_stays_in_range(rules, states, era, messages.drop_last(), nation);
    }
}

} // verus!
