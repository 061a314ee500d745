//! Building things: tile improvements that workers build over several turns, and the
//! buildings and units that cities produce.

use crate::city::{City, CityProduction};
use crate::tech::{decimal, is_researched, spec_is_researched, TechStateManager};
use vstd::prelude::*;

verus! {

/// A tile improvement under construction.
#[derive(Clone, Copy, Debug, PartialEq, Eq, Structural)]
pub struct TileImprovementBuildProgress {
    /// The improvement, by index in the rules.
    pub improvement: usize,
    /// Turns of work done.
    pub progress: u32,
    /// Turns of work needed.
    pub total_turns: u32,
    /// The nation building it.
    pub owner: usize,
    /// The worker unit's entity.
    pub worker: u64,
}

/// Starts building an improvement when a worker asks and the tile has neither an
/// improvement nor one under construction: no work done yet, and the turns the rules
/// give it, at least one.
pub fn handle_build_request(
    unit_is_worker: bool,
    tile_has_improvement: bool,
    tile_under_construction: bool,
    improvement: usize,
    turns_to_build: u32,
    owner: usize,
    worker: u64,
) -> (r: Option<TileImprovementBuildProgress>)
    ensures
        r == if unit_is_worker && !tile_has_improvement && !tile_under_construction {
            Some(
                TileImprovementBuildProgress {
                    improvement,
                    progress: 0,
                    total_turns: if turns_to_build >= 1 {
                        turns_to_build
                    } else {
                        1
                    },
                    owner,
                    worker,
                },
            )
        } else {
            None
        },
{
    if !unit_is_worker {
        return None;
    }
    if tile_has_improvement {
        return None;
    }
    if tile_under_construction {
        return None;
    }
    let total_turns = if turns_to_build >= 1 {
        turns_to_build
    } else {
        1
    };
    Some(TileImprovementBuildProgress { improvement, progress: 0, total_turns, owner, worker })
}

/// One turn of work on an improvement, at the start of its owner's turn (none on
/// turn 0). Says whether the improvement is finished.
pub fn process_improvement_progress(
    turn_number: u32,
    current_nation: usize,
    progress: &mut TileImprovementBuildProgress,
) -> (finished: bool)
    requires
        old(progress).progress < u32::MAX,
    ensures
        final(progress).improvement == old(progress).improvement,
        final(progress).total_turns == old(progress).total_turns,
        final(progress).owner == old(progress).owner,
        final(progress).worker == old(progress).worker,
        turn_number == 0 || old(progress).owner != current_nation ==> final(progress).progress == old(progress).progress && !finished,
        turn_number != 0 && old(progress).owner == current_nation ==> final(progress).progress == old(progress).progress + 1 && finished == (final(progress).progress >= final(progress).total_turns),
{
    if turn_number == 0 {
        return false;
    }
    if progress.owner != current_nation {
        return false;
    }
    progress.progress = progress.progress + 1;
    progress.progress >= progress.total_turns
}

/// What a city finished producing this turn.
#[derive(Clone, Copy, Debug, PartialEq, Eq, Structural)]
pub enum ProductionOutcome {
    Nothing,
    Building(usize),
    Unit(usize),
}

/// The cost the rules give a production item, counted as zero when negative.
pub open spec fn production_cost(item: CityProduction, building_costs: Seq<i32>, unit_costs: Seq<i32>) -> int {
    match item {
        CityProduction::Building(b) => if building_costs[b as int] > 0 {
            building_costs[b as int] as int
        } else {
            0
        },
        CityProduction::Unit(u) => if unit_costs[u as int] > 0 {
            unit_costs[u as int] as int
        } else {
            0
        },
    }
}

/// At the start of the owner's turn (not turn 0), adds the city's production to what it
/// is producing; when the progress reaches the cost, a building joins the city's
/// buildings, a unit is reported to be placed, and the city produces nothing more until
/// told. Nothing happens when the city produces nothing or its production is zero.
pub fn process_city_production(
    turn_number: u32,
    current_nation: usize,
    city_owner: usize,
    city: &mut City,
    production: u32,
    building_costs: &Vec<i32>,
    unit_costs: &Vec<i32>,
) -> (r: ProductionOutcome)
    requires
        match old(city).current_production {
            Some(CityProduction::Building(b)) => b < building_costs.len(),
            Some(CityProduction::Unit(u)) => u < unit_costs.len(),
            None => true,
        },
        old(city).production_progress + production <= u32::MAX,
    ensures
        final(city).owned_tiles@ == old(city).owned_tiles@,
        final(city).worked_tiles@ == old(city).worked_tiles@,
        final(city).population == old(city).population,
        final(city).food == old(city).food,
        final(city).culture == old(city).culture,
        ({
            let idle = turn_number == 0 || city_owner != current_nation
                || old(city).current_production is None || production == 0;
            if idle {
                &&& r == ProductionOutcome::Nothing
                &&& final(city).production_progress == old(city).production_progress
                &&& final(city).current_production == old(city).current_production
                &&& final(city).buildings@ == old(city).buildings@
            } else {
                let item = old(city).current_production.unwrap();
                let progress = old(city).production_progress + production;
                if progress < production_cost(item, building_costs@, unit_costs@) {
                    &&& r == ProductionOutcome::Nothing
                    &&& final(city).production_progress == progress
                    &&& final(city).current_production == old(city).current_production
                    &&& final(city).buildings@ == old(city).buildings@
                } else {
                    &&& final(city).production_progress == 0
                    &&& final(city).current_production is None
                    &&& match item {
                        CityProduction::Building(b) => r == ProductionOutcome::Building(b)
                            && final(city).buildings@ == old(city).buildings@.push(b),
                        CityProduction::Unit(u) => r == ProductionOutcome::Unit(u) && final(city).buildings@ == old(city).buildings@,
                    }
                }
            }
        }),
{
    if turn_number == 0 || city_owner != current_nation {
        return ProductionOutcome::Nothing;
    }
    let item = match city.current_production {
        Some(item) => item,
        None => {
            return ProductionOutcome::Nothing;
        },
    };
    if production == 0 {
        return ProductionOutcome::Nothing;
    }
    city.production_progress = city.production_progress + production;
    let cost: u32 = match item {
        CityProduction::Building(b) => {
            let c = building_costs[b];
            if c > 0 {
                c as u32
            } else {
                0
            }
        },
        CityProduction::Unit(u) => {
            let c = unit_costs[u];
            if c > 0 {
                c as u32
            } else {
                0
            }
        },
    };
    if city.production_progress < cost {
        return ProductionOutcome::Nothing;
    }
    let outcome = match item {
        CityProduction::Building(b) => {
            city.buildings.push(b);
            ProductionOutcome::Building(b)
        },
        CityProduction::Unit(u) => ProductionOutcome::Unit(u),
    };
    city.current_production = None;
    city.production_progress = 0;
    outcome
}

/// A unit standing on a tile.
#[derive(Clone, Copy, Debug, PartialEq, Eq, Structural)]
pub struct UnitPresence {
    pub tile: usize,
    pub military: bool,
    pub civilian: bool,
    pub owner: usize,
}

/// A unit of the given kind and owner may be placed on the tile: every unit there is of
/// the other kind and of the same owner (at most one military and one civilian unit per
/// tile, of one nation).
pub open spec fn can_place_on(units: Seq<UnitPresence>, tile: usize, is_military: bool, owner: usize) -> bool {
    forall|i: int|
        0 <= i < units.len() && (#[trigger] units[i]).tile == tile ==> !(is_military
            && units[i].military) && !(!is_military && units[i].civilian) && units[i].owner == owner
}

fn can_place(units: &Vec<UnitPresence>, tile: usize, is_military: bool, owner: usize) -> (r: bool)
    ensures
        r == can_place_on(units@, tile, is_military, owner),
{
    let mut i: usize = 0;
    while i < units.len()
        invariant
            0 <= i <= units.len(),
            forall|j: int|
                0 <= j < i && (#[trigger] units@[j]).tile == tile ==> !(is_military
                    && units@[j].military) && !(!is_military && units@[j].civilian)
                    && units@[j].owner == owner,
        decreases units.len() - i,
    {
        let u = units[i];
        if u.tile == tile {
            if is_military && u.military {
                return false;
            }
            if !is_military && u.civilian {
                return false;
            }
            if u.owner != owner {
                return false;
            }
        }
        i = i + 1;
    }
    true
}

/// `s` without repeats, each kept where it first occurs, after the entries of `seen`
/// are left out.
pub open spec fn add_new(seen: Seq<usize>, s: Seq<usize>) -> Seq<usize>
    decreases s.len(),
{
    if s.len() == 0 {
        seen
    } else {
        let prev = add_new(seen, s.drop_last());
        if prev.contains(s.last()) {
            prev
        } else {
            prev.push(s.last())
        }
    }
}

/// The tiles where a produced unit may be placed, in order of preference: the city's
/// owned tiles, then the tiles next to its center, each once.
pub open spec fn spawn_candidates(owned: Seq<usize>, center_neighbors: Seq<usize>) -> Seq<usize> {
    add_new(add_new(Seq::empty(), owned), center_neighbors)
}

/// The first candidate on which the unit may be placed, or the center.
pub open spec fn first_placeable(
    candidates: Seq<usize>,
    units: Seq<UnitPresence>,
    is_military: bool,
    owner: usize,
    center: usize,
) -> usize
    decreases candidates.len(),
{
    if candidates.len() == 0 {
        center
    } else if can_place_on(units, candidates[0], is_military, owner) {
        candidates[0]
    } else {
        first_placeable(candidates.drop_first(), units, is_military, owner, center)
    }
}

fn append_new(seen: &mut Vec<usize>, s: &Vec<usize>)
    ensures
        final(seen)@ == add_new(old(seen)@, s@),
{
    let ghost seen0 = seen@;
    let mut i: usize = 0;
    while i < s.len()
        invariant
            0 <= i <= s.len(),
            seen@ == add_new(seen0, s@.take(i as int)),
        decreases s.len() - i,
    {
        let x = s[i];
        proof {
            assert(s@.take(i + 1).drop_last() =~= s@.take(i as int));
        }
        if !contains(seen, x) {
            seen.push(x);
        }
        i = i + 1;
    }
    assert(s@.take(s.len() as int) =~= s@);
}

fn contains(v: &Vec<usize>, x: usize) -> (r: bool)
    ensures
        r == v@.contains(x),
{
    let mut i: usize = 0;
    while i < v.len()
        invariant
            0 <= i <= v.len(),
            forall|j: int| 0 <= j < i ==> v@[j] != x,
        decreases v.len() - i,
    {
        if v[i] == x {
            assert(v@[i as int] == x);
            return true;
        }
        i = i + 1;
    }
    false
}

/// Where a unit the city produced is placed: the first of the city's owned tiles, then
/// of the tiles next to its center, where every unit already standing is of the other
/// kind (military or civilian) and of the same nation; the center when there is none.
pub fn find_spawn_tile(
    center_tile: usize,
    owned_tiles: &Vec<usize>,
    center_neighbors: &Vec<usize>,
    is_military: bool,
    unit_owner: usize,
    units: &Vec<UnitPresence>,
) -> (r: usize)
    ensures
        r == first_placeable(
            spawn_candidates(owned_tiles@, center_neighbors@),
            units@,
            is_military,
            unit_owner,
            center_tile,
        ),
{
    let mut candidates: Vec<usize> = Vec::new();
    append_new(&mut candidates, owned_tiles);
    append_new(&mut candidates, center_neighbors);
    assert(candidates@ == spawn_candidates(owned_tiles@, center_neighbors@));
    assert(candidates@.skip(0) =~= candidates@);
    let mut i: usize = 0;
    while i < candidates.len()
        invariant
            0 <= i <= candidates.len(),
            candidates@ == spawn_candidates(owned_tiles@, center_neighbors@),
            first_placeable(candidates@, units@, is_military, unit_owner, center_tile)
                == first_placeable(candidates@.skip(i as int), units@, is_military, unit_owner, center_tile),
        decreases candidates.len() - i,
    {
        let tile = candidates[i];
        assert(candidates@.skip(i as int)[0] == tile);
        if can_place(units, tile, is_military, unit_owner) {
            assert(candidates@.skip(i as int).len() > 0);
            assert(first_placeable(candidates@.skip(i as int), units@, is_military, unit_owner, center_tile) == tile);
            return tile;
        }
        assert(candidates@.skip(i as int).drop_first() =~= candidates@.skip(i + 1));
        i = i + 1;
    }
    assert(candidates@.skip(i as int).len() == 0);
    assert(first_placeable(candidates@.skip(i as int), units@, is_military, unit_owner, center_tile) == center_tile);
    center_tile
}

/// The turns a production of `cost` takes at `production_per_turn`: the cost divided by
/// the production, rounded up; zero without production.
pub open spec fn spec_turns_estimate(cost: u32, production_per_turn: u32) -> int {
    if production_per_turn == 0 {
        0
    } else {
        (cost + production_per_turn - 1) / (production_per_turn as int)
    }
}

fn div_ceil(a: u32, b: u32) -> (r: u32)
    requires
        b > 0,
    ensures
        r == (a + b - 1) / (b as int),
{
    let q = a / b;
    proof {
        assert(a % b != 0 ==> q < u32::MAX) by (nonlinear_arith)
            requires
                b > 0,
                q == a / b,
        ;
    }
    let r = if a % b == 0 {
        q
    } else {
        q + 1
    };
    proof {
        let ai = a as int;
        let bi = b as int;
        assert((ai + bi - 1) / bi == r) by (nonlinear_arith)
            requires
                bi > 0,
                ai >= 0,
                q == ai / bi,
                r == (if ai % bi == 0 {
                    q as int
                } else {
                    q as int + 1
                }),
        ;
    }
    r
}

/// The turns a production of `cost` takes at `production_per_turn` per turn.
pub fn turns_estimate(cost: u32, production_per_turn: u32) -> (r: u32)
    ensures
        r == spec_turns_estimate(cost, production_per_turn),
{
    if production_per_turn == 0 {
        0
    } else {
        div_ceil(cost, production_per_turn)
    }
}

/// The digit `v` as text.
fn digit_text(v: u64) -> (s: &'static str)
    requires
        v < 10,
    ensures
        s@ == decimal(v as nat),
{
    proof {
        reveal_strlit("0");
        reveal_strlit("1");
        reveal_strlit("2");
        reveal_strlit("3");
        reveal_strlit("4");
        reveal_strlit("5");
        reveal_strlit("6");
        reveal_strlit("7");
        reveal_strlit("8");
        reveal_strlit("9");
    }
    if v == 0 {
        "0"
    } else if v == 1 {
        "1"
    } else if v == 2 {
        "2"
    } else if v == 3 {
        "3"
    } else if v == 4 {
        "4"
    } else if v == 5 {
        "5"
    } else if v == 6 {
        "6"
    } else if v == 7 {
        "7"
    } else if v == 8 {
        "8"
    } else {
        "9"
    }
}

/// Writes the decimal digits of `n` after the text.
fn append_decimal(s: &mut String, n: u64)
    ensures
        final(s)@ == old(s)@ + decimal(n as nat),
    decreases n,
{
    if n >= 10 {
        append_decimal(s, n / 10);
    }
    let ghost before = s@;
    s.append(digit_text(n % 10));
    proof {
        let c = decimal((n % 10) as nat)[0];
        assert(decimal((n % 10) as nat) == seq![c]);
        if n >= 10 {
            assert(decimal(n as nat) == decimal((n / 10) as nat).push(c));
            assert(s@ =~= old(s)@ + decimal(n as nat));
        } else {
            assert(decimal(n as nat) == seq![c]);
        }
    }
}

/// The decimal digits of `n`, without sign or leading zeros.
pub(crate) fn decimal_string(n: u64) -> (s: String)
    ensures
        s@ == decimal(n as nat),
{
    proof {
        reveal_strlit("");
    }
    let mut s = String::from_str("");
    append_decimal(&mut s, n);
    proof {
        assert(s@ =~= decimal(n as nat));
    }
    s
}

/// The turns shown on a city's banner for `remaining` at `per_turn`: "∞" without
/// progress, else the remaining amount divided by the progress per turn, rounded up.
pub fn turns_string(remaining: u32, per_turn: u32) -> (r: String)
    ensures
        r@ == if per_turn == 0 {
            "∞"@
        } else {
            decimal(((remaining + per_turn - 1) / (per_turn as int)) as nat)
        },
{
    if per_turn == 0 {
        "∞".to_string()
    } else {
        decimal_string(div_ceil(remaining, per_turn) as u64)
    }
}

/// The text a banner shows for `remaining` at `per_turn`: "∞" without progress, else
/// the turns left, rounded up.
pub open spec fn turns_text(remaining: int, per_turn: u32) -> Seq<char> {
    if per_turn == 0 {
        "∞"@
    } else {
        decimal(((remaining + per_turn - 1) / (per_turn as int)) as nat)
    }
}

fn item_cost(item: CityProduction, building_costs: &Vec<i32>, unit_costs: &Vec<i32>) -> (r: u32)
    requires
        match item {
            CityProduction::Building(b) => b < building_costs.len(),
            CityProduction::Unit(u) => u < unit_costs.len(),
        },
    ensures
        r == production_cost(item, building_costs@, unit_costs@),
{
    let c = match item {
        CityProduction::Building(b) => building_costs[b],
        CityProduction::Unit(u) => unit_costs[u],
    };
    if c > 0 {
        c as u32
    } else {
        0
    }
}

/// The two turn counts on a city's banner: the turns until the city grows (the food it
/// still needs at `food_per_turn`), and the turns until what it produces is done (what
/// the item still costs at `production_per_turn`), or "-" when it produces nothing.
pub fn city_banner_turns(
    city: &City,
    food_per_turn: u32,
    production_per_turn: u32,
    building_costs: &Vec<i32>,
    unit_costs: &Vec<i32>,
) -> (r: (String, String))
    requires
        match city.current_production {
            Some(CityProduction::Building(b)) => b < building_costs.len(),
            Some(CityProduction::Unit(u)) => u < unit_costs.len(),
            None => true,
        },
    ensures
        r.0@ == turns_text(if city.food_needed > city.food { city.food_needed - city.food } else { 0 }, food_per_turn),
        r.1@ == match city.current_production {
            None => "-"@,
            Some(item) => {
                let cost = production_cost(item, building_costs@, unit_costs@);
                turns_text(if cost > city.production_progress { cost - city.production_progress } else { 0 }, production_per_turn)
            },
        },
{
    let growth_remaining = city.food_needed.saturating_sub(city.food);
    let growth = turns_string(growth_remaining, food_per_turn);
    let production = match city.current_production {
        None => "-".to_string(),
        Some(item) => {
            let cost = item_cost(item, building_costs, unit_costs);
            turns_string(cost.saturating_sub(city.production_progress), production_per_turn)
        },
    };
    (growth, production)
}

/// What the rules say of a unit a city may produce.
#[derive(Clone, Copy, Debug)]
pub struct UnitInfo {
    pub strength: i32,
    pub cost: i32,
    /// The technology that unlocks it, if any.
    pub required_tech: Option<usize>,
    /// The technology that makes it obsolete, if any.
    pub obsolete_tech: Option<usize>,
}

/// What the rules say of a building a city may produce.
#[derive(Clone, Copy, Debug)]
pub struct BuildingInfo {
    pub cost: i32,
    pub is_wonder: bool,
    pub is_national_wonder: bool,
    /// The technology that unlocks it, if any.
    pub required_tech: Option<usize>,
}

/// The technology is researched, when the nation's technologies are known.
pub open spec fn researched_by(manager: Option<&TechStateManager>, t: usize) -> bool {
    match manager {
        Some(m) => spec_is_researched(m.0@, t as int),
        None => false,
    }
}

/// A unit is offered: it fights, costs something, its technology (if any) is researched
/// and its obsoleting technology (if any) is not.
pub open spec fn unit_offered(u: UnitInfo, manager: Option<&TechStateManager>) -> bool {
    &&& u.strength > 0
    &&& u.cost > 0
    &&& (u.required_tech matches Some(t) ==> researched_by(manager, t))
    &&& (u.obsolete_tech matches Some(t) ==> !researched_by(manager, t))
}

/// A building is offered: it is no wonder, the city lacks it, it costs something and
/// its technology (if any) is researched.
pub open spec fn building_offered(
    b: BuildingInfo,
    index: usize,
    city_buildings: Seq<usize>,
    manager: Option<&TechStateManager>,
) -> bool {
    &&& !b.is_wonder
    &&& !b.is_national_wonder
    &&& !city_buildings.contains(index)
    &&& b.cost > 0
    &&& (b.required_tech matches Some(t) ==> researched_by(manager, t))
}

/// The indices among the first `n` entries that pass the test, in order.
pub open spec fn passing(n: int, test: spec_fn(int) -> bool) -> Seq<usize>
    decreases n,
{
    if n <= 0 {
        Seq::empty()
    } else {
        let rest = passing(n - 1, test);
        if test(n - 1) {
            rest.push((n - 1) as usize)
        } else {
            rest
        }
    }
}

/// The technologies named by the table are known to the nation's manager.
pub open spec fn techs_known(manager: Option<&TechStateManager>, t: Option<usize>) -> bool {
    match (manager, t) {
        (Some(m), Some(t)) => t < m.0.len(),
        _ => true,
    }
}

fn researched_opt(manager: Option<&TechStateManager>, t: usize) -> (r: bool)
    requires
        techs_known(manager, Some(t)),
    ensures
        r == researched_by(manager, t),
{
    match manager {
        Some(m) => is_researched(t, m),
        None => false,
    }
}

/// The units a city may be told to produce, by index in the rules, in order.
pub fn buildable_units(units: &Vec<UnitInfo>, tech_state_manager: Option<&TechStateManager>) -> (r: Vec<usize>)
    requires
        forall|i: int|
            0 <= i < units.len() ==> techs_known(tech_state_manager, (#[trigger] units@[i]).required_tech)
                && techs_known(tech_state_manager, units@[i].obsolete_tech),
    ensures
        r@ == passing(units.len() as int, |i: int| unit_offered(units@[i], tech_state_manager)),
{
    let mut r: Vec<usize> = Vec::new();
    let mut i: usize = 0;
    while i < units.len()
        invariant
            0 <= i <= units.len(),
            forall|k: int|
                0 <= k < units.len() ==> techs_known(tech_state_manager, (#[trigger] units@[k]).required_tech)
                    && techs_known(tech_state_manager, units@[k].obsolete_tech),
            r@ == passing(i as int, |k: int| unit_offered(units@[k], tech_state_manager)),
        decreases units.len() - i,
    {
        let u = units[i];
        let mut ok = u.strength > 0 && u.cost > 0;
        if ok {
            match u.required_tech {
                Some(t) => {
                    if !researched_opt(tech_state_manager, t) {
                        ok = false;
                    }
                },
                None => {},
            }
        }
        if ok {
            match u.obsolete_tech {
                Some(t) => {
                    if researched_opt(tech_state_manager, t) {
                        ok = false;
                    }
                },
                None => {},
            }
        }
        assert(ok == unit_offered(units@[i as int], tech_state_manager));
        if ok {
            r.push(i);
        }
        i = i + 1;
    }
    r
}

/// The buildings a city may be told to produce, by index in the rules, in order.
pub fn buildable_buildings(
    buildings: &Vec<BuildingInfo>,
    city_buildings: &Vec<usize>,
    tech_state_manager: Option<&TechStateManager>,
) -> (r: Vec<usize>)
    requires
        forall|i: int|
            0 <= i < buildings.len() ==> techs_known(tech_state_manager, (#[trigger] buildings@[i]).required_tech),
    ensures
        r@ == passing(
            buildings.len() as int,
            |i: int| building_offered(buildings@[i], i as usize, city_buildings@, tech_state_manager),
        ),
{
    let mut r: Vec<usize> = Vec::new();
    let mut i: usize = 0;
    while i < buildings.len()
        invariant
            0 <= i <= buildings.len(),
            forall|k: int|
                0 <= k < buildings.len() ==> techs_known(tech_state_manager, (#[trigger] buildings@[k]).required_tech),
            r@ == passing(
                i as int,
                |k: int| building_offered(buildings@[k], k as usize, city_buildings@, tech_state_manager),
            ),
        decreases buildings.len() - i,
    {
        let b = buildings[i];
        let mut ok = !b.is_wonder && !b.is_national_wonder && !contains(city_buildings, i) && b.cost > 0;
        if ok {
            match b.required_tech {
                Some(t) => {
                    if !researched_opt(tech_state_manager, t) {
                        ok = false;
                    }
                },
                None => {},
            }
        }
        assert(ok == building_offered(buildings@[i as int], i, city_buildings@, tech_state_manager));
        if ok {
            r.push(i);
        }
        i = i + 1;
    }
    r
}


/// The entries that technology `tech` unlocks for every nation: those that require it
/// and are unique to no nation. Each entry is the technology it requires, if any, and
/// whether it is unique to some nation.
pub open spec fn unlocked_by(tech: usize, items: Seq<(Option<usize>, bool)>) -> Seq<usize> {
    passing(items.len() as int, |i: int| items[i].0 == Some(tech) && !items[i].1)
}

/// Lists what the technology screen shows under `tech`: the indices of the entries
/// (units, buildings or tile improvements) that require it and are unique to no nation,
/// in order.
pub fn tech_unlocks(tech: usize, items: &Vec<(Option<usize>, bool)>) -> (r: Vec<usize>)
    ensures
        r@ == unlocked_by(tech, items@),
{
    let mut r: Vec<usize> = Vec::new();
    let mut i: usize = 0;
    while i < items.len()
        invariant
            0 <= i <= items.len(),
            r@ == passing(i as int, |k: int| items@[k].0 == Some(tech) && !items@[k].1),
        decreases items.len() - i,
    {
        let (req, unique) = items[i];
        if req == Some(tech) && !unique {
            r.push(i);
        }
        i = i + 1;
    }
    r
}

} // verus!
