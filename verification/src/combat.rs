//! Combat: the random numbers combat draws, how damage wears down health, who dies,
//! which units get their movement back, and which attacks the computer starts.

use crate::movement::Movement;
use vstd::prelude::*;

verus! {

/// A unit's health.
#[derive(Clone, Copy, Debug, PartialEq, Eq, Structural)]
pub struct Health {
    pub current: u32,
    pub max: u32,
}

/// A linear congruential generator of random numbers; its state is the last value.
#[derive(Clone, Copy, Debug, PartialEq, Eq, Structural)]
pub struct SimpleRng(pub u64);

/// The generator's next state: state * 6364136223846793005 + 1442695040888963407,
/// modulo 2^64.
pub open spec fn lcg_step(s: u64) -> u64 {
    (((s as int * 6364136223846793005) % 0x1_0000_0000_0000_0000 + 1442695040888963407)
        % 0x1_0000_0000_0000_0000) as u64
}

impl SimpleRng {
    /// A generator seeded with `seed`.
    pub fn new(seed: u64) -> (r: Self)
        ensures
            r.0 == seed,
    {
        SimpleRng(seed)
    }

    /// Advances the generator and gives the top 31 bits of its new state (a number below
    /// 2^31, which divided by 2^31 is a random fraction in [0, 1)).
    pub fn next_bits(&mut self) -> (r: u32)
        ensures
            final(self).0 == lcg_step(old(self).0),
            r == final(self).0 >> 33u64,
            r < 0x8000_0000,
    {
        let product = self.0.wrapping_mul(6364136223846793005);
        let next = product.wrapping_add(1442695040888963407);
        self.0 = next;
        let bits = next >> 33u64;
        assert(next >> 33u64 <= 0x7fff_ffff) by (bit_vector);
        bits as u32
    }
}

/// What a fight leaves: both units' health, and who died.
#[derive(Clone, Copy, Debug, PartialEq, Eq, Structural)]
pub struct CombatResult {
    pub attacker: Health,
    pub defender: Health,
    pub attacker_died: bool,
    pub defender_died: bool,
}

/// `a - b`, but not below zero.
pub open spec fn sat_sub(a: u32, b: u32) -> u32 {
    if a >= b {
        (a - b) as u32
    } else {
        0
    }
}

/// Applies the damage a fight dealt: the defender loses `damage_to_defender` health,
/// the attacker loses `counter_damage`, unless it attacked from range, which draws no
/// counter attack; health does not go below zero, and a unit with none left dies.
pub fn resolve_attack(
    attacker_health: Health,
    defender_health: Health,
    is_ranged_attacker: bool,
    damage_to_defender: u32,
    counter_damage: u32,
) -> (r: CombatResult)
    ensures
        r.attacker.max == attacker_health.max,
        r.defender.max == defender_health.max,
        r.defender.current == sat_sub(defender_health.current, damage_to_defender),
        r.attacker.current == if is_ranged_attacker {
            attacker_health.current
        } else {
            sat_sub(attacker_health.current, counter_damage)
        },
        r.attacker_died == (r.attacker.current == 0),
        r.defender_died == (r.defender.current == 0),
{
    let damage_to_attacker = if is_ranged_attacker {
        0
    } else {
        counter_damage
    };
    let new_attacker_hp = attacker_health.current.saturating_sub(damage_to_attacker);
    let new_defender_hp = defender_health.current.saturating_sub(damage_to_defender);
    CombatResult {
        attacker: Health { current: new_attacker_hp, max: attacker_health.max },
        defender: Health { current: new_defender_hp, max: defender_health.max },
        attacker_died: new_attacker_hp == 0,
        defender_died: new_defender_hp == 0,
    }
}

/// At the start of a nation's turn, its units get their full movement back; other
/// nations' units keep theirs. `units` lists each unit's owner and movement.
pub fn restore_movement(units: &mut Vec<(usize, Movement)>, current_nation: usize)
    ensures
        final(units).len() == old(units).len(),
        forall|i: int|
            0 <= i < old(units).len() ==> #[trigger] final(units)@[i] == if old(units)@[i].0
                == current_nation {
                (old(units)@[i].0, Movement { current: old(units)@[i].1.max, max: old(units)@[i].1.max })
            } else {
                old(units)@[i]
            },
{
    let ghost u0 = units@;
    let mut i: usize = 0;
    while i < units.len()
        invariant
            0 <= i <= units.len(),
            units.len() == u0.len(),
            forall|j: int|
                0 <= j < i ==> #[trigger] units@[j] == if u0[j].0 == current_nation {
                    (u0[j].0, Movement { current: u0[j].1.max, max: u0[j].1.max })
                } else {
                    u0[j]
                },
            forall|j: int| i <= j < units.len() ==> #[trigger] units@[j] == u0[j],
        decreases units.len() - i,
    {
        let (owner, movement) = units[i];
        if owner == current_nation {
            units.set(i, (owner, Movement { current: movement.max, max: movement.max }));
        }
        i = i + 1;
    }
}

/// A computer unit that may attack.
#[derive(Clone, Copy, Debug, PartialEq, Eq, Structural)]
pub struct AiUnit {
    pub entity: u64,
    pub owner: usize,
    pub strength: u32,
    pub movement: u32,
    pub tile: usize,
}

/// A unit on the map.
#[derive(Clone, Copy, Debug, PartialEq, Eq, Structural)]
pub struct UnitAt {
    pub entity: u64,
    pub owner: usize,
    pub tile: usize,
}

/// The first unit of another nation standing on `tile`.
pub open spec fn first_foe_on(units: Seq<UnitAt>, tile: usize, owner: usize) -> Option<u64>
    decreases units.len(),
{
    if units.len() == 0 {
        None
    } else if units[0].owner != owner && units[0].tile == tile {
        Some(units[0].entity)
    } else {
        first_foe_on(units.drop_first(), tile, owner)
    }
}

/// The attacks the computer's units start, as (attacker, target): each unit that still
/// can move and has strength attacks the first unit of another nation on its own tile.
pub open spec fn spec_ai_attacks(enemies: Seq<AiUnit>, units: Seq<UnitAt>) -> Seq<(u64, u64)>
    decreases enemies.len(),
{
    if enemies.len() == 0 {
        Seq::empty()
    } else {
        let rest = spec_ai_attacks(enemies.drop_last(), units);
        let e = enemies.last();
        if e.movement == 0 || e.strength == 0 {
            rest
        } else {
            match first_foe_on(units, e.tile, e.owner) {
                Some(t) => rest.push((e.entity, t)),
                None => rest,
            }
        }
    }
}

fn find_foe(units: &Vec<UnitAt>, tile: usize, owner: usize) -> (r: Option<u64>)
    ensures
        r == first_foe_on(units@, tile, owner),
{
    let mut i: usize = 0;
    assert(units@.skip(0) =~= units@);
    while i < units.len()
        invariant
            0 <= i <= units.len(),
            first_foe_on(units@, tile, owner) == first_foe_on(units@.skip(i as int), tile, owner),
        decreases units.len() - i,
    {
        assert(units@.skip(i as int)[0] == units@[i as int]);
        let u = units[i];
        if u.owner != owner && u.tile == tile {
            return Some(u.entity);
        }
        assert(units@.skip(i as int).drop_first() =~= units@.skip(i + 1));
        i = i + 1;
    }
    assert(units@.skip(i as int).len() == 0);
    None
}

/// The attacks the computer's units start this turn (see [`spec_ai_attacks`]); each
/// attacker then has no movement left.
pub fn ai_attack_system(enemies: &Vec<AiUnit>, units: &Vec<UnitAt>) -> (r: Vec<(u64, u64)>)
    ensures
        r@ == spec_ai_attacks(enemies@, units@),
{
    let mut attacks: Vec<(u64, u64)> = Vec::new();
    let mut i: usize = 0;
    while i < enemies.len()
        invariant
            0 <= i <= enemies.len(),
            attacks@ == spec_ai_attacks(enemies@.take(i as int), units@),
        decreases enemies.len() - i,
    {
        let e = enemies[i];
        proof {
            assert(enemies@.take(i + 1).drop_last() =~= enemies@.take(i as int));
        }
        if e.movement != 0 && e.strength != 0 {
            match find_foe(units, e.tile, e.owner) {
                Some(t) => attacks.push((e.entity, t)),
                None => {},
            }
        }
        i = i + 1;
    }
    assert(enemies@.take(enemies.len() as int) =~= enemies@);
    attacks
}

} // verus!
