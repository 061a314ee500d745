//! What a click on the world map selects or orders: cycling through the city and the
//! units on a tile, and what a click does while a unit's move order is active.

use vstd::prelude::*;

verus! {

/// A unit on the map, as the selection rules see it.
#[derive(Clone, Copy, Debug, PartialEq, Eq, Structural)]
pub struct MapUnit {
    pub entity: u64,
    /// The nation it belongs to.
    pub owner: usize,
    /// The tile it stands on.
    pub tile: usize,
    /// A military unit (else a civilian).
    pub military: bool,
}

/// What a click on a tile may select.
#[derive(Clone, Copy, Debug, PartialEq, Eq, Structural)]
pub enum SelectTarget {
    /// The city on the tile.
    City(usize),
    /// A unit, by entity.
    Unit(u64),
}

/// The units of `player` on `tile` that are military (or, with `military` false,
/// civilian), in list order.
pub open spec fn own_units_on(units: Seq<MapUnit>, tile: usize, player: usize, military: bool) -> Seq<SelectTarget>
    decreases units.len(),
{
    if units.len() == 0 {
        Seq::empty()
    } else {
        let rest = own_units_on(units.drop_last(), tile, player, military);
        let u = units.last();
        if u.tile == tile && u.owner == player && u.military == military {
            rest.push(SelectTarget::Unit(u.entity))
        } else {
            rest
        }
    }
}

/// What a click on `tile` may select, in the order a repeated click goes through them:
/// the player's city there, then the player's military units, then the player's civilians.
pub open spec fn tile_targets(city_of_player: bool, tile: usize, units: Seq<MapUnit>, player: usize) -> Seq<SelectTarget> {
    let city: Seq<SelectTarget> = if city_of_player {
        seq![SelectTarget::City(tile)]
    } else {
        Seq::empty()
    };
    city + own_units_on(units, tile, player, true) + own_units_on(units, tile, player, false)
}

fn push_own_units(
    targets: &mut Vec<SelectTarget>,
    units: &Vec<MapUnit>,
    tile: usize,
    player: usize,
    military: bool,
)
    ensures
        final(targets)@ == old(targets)@ + own_units_on(units@, tile, player, military),
{
    let ghost start = targets@;
    let mut i: usize = 0;
    while i < units.len()
        invariant
            0 <= i <= units.len(),
            targets@ == start + own_units_on(units@.take(i as int), tile, player, military),
        decreases units.len() - i,
    {
        let u = units[i];
        proof {
            assert(units@.take(i + 1).drop_last() =~= units@.take(i as int));
            assert(units@.take(i + 1).last() == u);
        }
        if u.tile == tile && u.owner == player && u.military == military {
            targets.push(SelectTarget::Unit(u.entity));
            proof {
                assert(targets@ =~= start + own_units_on(units@.take(i + 1), tile, player, military));
            }
        }
        i = i + 1;
    }
    assert(units@.take(units.len() as int) =~= units@);
}

/// Lists what a click on `tile` may select: the player's city there (when
/// `city_of_player`), then the player's military units on the tile, then the player's
/// civilians, each in list order.
pub fn tile_selection_targets(city_of_player: bool, tile: usize, units: &Vec<MapUnit>, player: usize) -> (r: Vec<SelectTarget>)
    ensures
        r@ == tile_targets(city_of_player, tile, units@, player),
{
    let mut targets: Vec<SelectTarget> = Vec::new();
    if city_of_player {
        targets.push(SelectTarget::City(tile));
    }
    proof {
        let city: Seq<SelectTarget> = if city_of_player {
            seq![SelectTarget::City(tile)]
        } else {
            Seq::empty()
        };
        assert(targets@ =~= city);
    }
    push_own_units(&mut targets, units, tile, player, true);
    push_own_units(&mut targets, units, tile, player, false);
    targets
}

/// The first position in `s` where `pick` holds.
pub open spec fn first_index<A>(s: Seq<A>, pick: spec_fn(A) -> bool) -> Option<int>
    decreases s.len(),
{
    if s.len() == 0 {
        None
    } else {
        match first_index(s.drop_last(), pick) {
            Some(i) => Some(i),
            None => if pick(s.last()) {
                Some(s.len() - 1)
            } else {
                None
            },
        }
    }
}

/// Whether a target is a city.
pub open spec fn is_city(t: SelectTarget) -> bool {
    t is City
}

/// The position of what is selected now among the targets of the clicked tile: the
/// city when the selected city stands on the tile, else the selected unit when it
/// stands on the tile.
pub open spec fn current_position(
    targets: Seq<SelectTarget>,
    tile: usize,
    selected_city: Option<usize>,
    selected_unit: Option<(u64, usize)>,
) -> Option<int> {
    if selected_city == Some(tile) {
        first_index(targets, |t: SelectTarget| is_city(t))
    } else {
        match selected_unit {
            Some((e, t)) => if t == tile {
                first_index(targets, |x: SelectTarget| x == SelectTarget::Unit(e))
            } else {
                None
            },
            None => None,
        }
    }
}

/// What a click on `tile` selects: nothing when there is nothing to select, else the
/// target after the one selected now (going round), or the first one.
pub open spec fn spec_next_selection(
    targets: Seq<SelectTarget>,
    tile: usize,
    selected_city: Option<usize>,
    selected_unit: Option<(u64, usize)>,
) -> Option<SelectTarget> {
    if targets.len() == 0 {
        None
    } else {
        match current_position(targets, tile, selected_city, selected_unit) {
            Some(i) => Some(targets[(i + 1) % (targets.len() as int)]),
            None => Some(targets[0]),
        }
    }
}

proof fn lemma_first_index_bounds<A>(s: Seq<A>, pick: spec_fn(A) -> bool)
    ensures
        match first_index(s, pick) {
            Some(i) => 0 <= i < s.len() && pick(s[i]) && forall|j: int| 0 <= j < i ==> !pick(s[j]),
            None => forall|j: int| 0 <= j < s.len() ==> !pick(s[j]),
        },
    decreases s.len(),
{
    if s.len() > 0 {
        lemma_first_index_bounds(s.drop_last(), pick);
        assert(forall|j: int| 0 <= j < s.len() - 1 ==> s.drop_last()[j] == s[j]);
    }
}

/// Finds the first position in `targets` where `pick` holds.
fn find_target(targets: &Vec<SelectTarget>, city: bool, unit: u64) -> (r: Option<usize>)
    ensures
        city ==> match r {
            Some(i) => first_index(targets@, |t: SelectTarget| is_city(t)) == Some(i as int),
            None => first_index(targets@, |t: SelectTarget| is_city(t)) is None,
        },
        !city ==> match r {
            Some(i) => first_index(targets@, |x: SelectTarget| x == SelectTarget::Unit(unit)) == Some(i as int),
            None => first_index(targets@, |x: SelectTarget| x == SelectTarget::Unit(unit)) is None,
        },
{
    let ghost pick = if city {
        |t: SelectTarget| is_city(t)
    } else {
        |x: SelectTarget| x == SelectTarget::Unit(unit)
    };
    let mut i: usize = 0;
    while i < targets.len()
        invariant
            0 <= i <= targets.len(),
            pick == (if city {
                |t: SelectTarget| is_city(t)
            } else {
                |x: SelectTarget| x == SelectTarget::Unit(unit)
            }),
            first_index(targets@.take(i as int), pick) is None,
        decreases targets.len() - i,
    {
        let t = targets[i];
        let hit = match t {
            SelectTarget::City(_) => city,
            SelectTarget::Unit(e) => !city && e == unit,
        };
        proof {
            assert(targets@.take(i + 1).drop_last() =~= targets@.take(i as int));
            assert(targets@.take(i + 1).last() == t);
            assert(hit == pick(t));
        }
        if hit {
            proof {
                lemma_first_index_prefix(targets@, pick, i as int + 1);
            }
            return Some(i);
        }
        i = i + 1;
    }
    assert(targets@.take(targets.len() as int) =~= targets@);
    None
}

/// The first position found in a prefix is the first position in the whole list.
proof fn lemma_first_index_prefix<A>(s: Seq<A>, pick: spec_fn(A) -> bool, k: int)
    requires
        0 <= k <= s.len(),
        first_index(s.take(k), pick) is Some,
    ensures
        first_index(s, pick) == first_index(s.take(k), pick),
    decreases s.len() - k,
{
    if k < s.len() {
        assert(s.take(k + 1).drop_last() =~= s.take(k));
        assert(first_index(s.take(k + 1), pick) == first_index(s.take(k), pick));
        lemma_first_index_prefix(s, pick, k + 1);
    } else {
        assert(s.take(k) =~= s);
    }
}

/// Picks what a click on `tile` selects among `targets` (see
/// [`tile_selection_targets`]): nothing when there is nothing, else the one after what
/// is selected now, going round, or the first one. `selected_city` is the tile of the
/// selected city; `selected_unit` the selected unit and its tile.
pub fn next_tile_selection(
    targets: &Vec<SelectTarget>,
    tile: usize,
    selected_city: Option<usize>,
    selected_unit: Option<(u64, usize)>,
) -> (r: Option<SelectTarget>)
    ensures
        r == spec_next_selection(targets@, tile, selected_city, selected_unit),
{
    if targets.len() == 0 {
        return None;
    }
    let unit_e: u64 = match selected_unit {
        Some((e, _)) => e,
        None => 0,
    };
    let pos: Option<usize> = if selected_city == Some(tile) {
        find_target(targets, true, 0)
    } else {
        match selected_unit {
            Some((e, t)) => if t == tile {
                find_target(targets, false, e)
            } else {
                None
            },
            None => None,
        }
    };
    match pos {
        Some(i) => {
            proof {
                lemma_first_index_bounds(targets@, if selected_city == Some(tile) {
                    |t: SelectTarget| is_city(t)
                } else {
                    |x: SelectTarget| x == SelectTarget::Unit(unit_e)
                });
            }
            Some(targets[(i + 1) % targets.len()])
        },
        None => Some(targets[0]),
    }
}


/// The units of `player` on `tile`, military or not, in list order.
pub open spec fn player_units_on(units: Seq<MapUnit>, tile: usize, player: usize) -> Seq<u64>
    decreases units.len(),
{
    if units.len() == 0 {
        Seq::empty()
    } else {
        let rest = player_units_on(units.drop_last(), tile, player);
        let u = units.last();
        if u.tile == tile && u.owner == player {
            rest.push(u.entity)
        } else {
            rest
        }
    }
}

/// The unit a click on `tile` selects when clicking cycles through the player's units
/// there: none when the player has no unit there, else the one after the selected
/// unit when that one stands there (going round), else the first.
pub open spec fn spec_next_unit(units: Seq<MapUnit>, tile: usize, player: usize, current: Option<u64>) -> Option<u64> {
    let on_tile = player_units_on(units, tile, player);
    if on_tile.len() == 0 {
        None
    } else {
        match current {
            Some(c) => match first_index(on_tile, |e: u64| e == c) {
                Some(i) => Some(on_tile[(i + 1) % (on_tile.len() as int)]),
                None => Some(on_tile[0]),
            },
            None => Some(on_tile[0]),
        }
    }
}

/// Picks the unit a click on `tile` selects: the player's units there are gone
/// through in list order, starting after the selected unit `current` when it stands
/// there, else at the first; `None` when the player has no unit there (the selection
/// is then cleared).
pub fn next_unit_selection(units: &Vec<MapUnit>, tile: usize, player: usize, current: Option<u64>) -> (r: Option<u64>)
    ensures
        r == spec_next_unit(units@, tile, player, current),
{
    let mut on_tile: Vec<u64> = Vec::new();
    let mut i: usize = 0;
    while i < units.len()
        invariant
            0 <= i <= units.len(),
            on_tile@ == player_units_on(units@.take(i as int), tile, player),
        decreases units.len() - i,
    {
        let u = units[i];
        proof {
            assert(units@.take(i + 1).drop_last() =~= units@.take(i as int));
            assert(units@.take(i + 1).last() == u);
        }
        if u.tile == tile && u.owner == player {
            on_tile.push(u.entity);
        }
        i = i + 1;
    }
    assert(units@.take(units.len() as int) =~= units@);
    assert(on_tile@ == player_units_on(units@, tile, player));
    if on_tile.len() == 0 {
        return None;
    }
    match current {
        Some(c) => {
            let ghost pick = |e: u64| e == c;
            let mut j: usize = 0;
            while j < on_tile.len()
                invariant
                    0 <= j <= on_tile.len(),
                    on_tile@ == player_units_on(units@, tile, player),
                    current == Some(c),
                    pick == (|e: u64| e == c),
                    first_index(on_tile@.take(j as int), pick) is None,
                decreases on_tile.len() - j,
            {
                proof {
                    assert(on_tile@.take(j + 1).drop_last() =~= on_tile@.take(j as int));
                    assert(on_tile@.take(j + 1).last() == on_tile@[j as int]);
                }
                if on_tile[j] == c {
                    proof {
                        assert(pick(on_tile@[j as int]));
                        assert(first_index(on_tile@.take(j + 1), pick) == Some(j as int));
                        lemma_first_index_prefix(on_tile@, pick, j as int + 1);
                        assert(first_index(on_tile@, |e: u64| e == c) == Some(j as int));
                        assert(on_tile@ == player_units_on(units@, tile, player));
                    }
                    return Some(on_tile[(j + 1) % on_tile.len()]);
                }
                j = j + 1;
            }
            assert(on_tile@.take(on_tile.len() as int) =~= on_tile@);
            Some(on_tile[0])
        },
        None => Some(on_tile[0]),
    }
}

/// What a click on a tile does while a unit's move order is active.
#[derive(Clone, Copy, Debug, PartialEq, Eq, Structural)]
pub enum MoveClick {
    /// Nothing happens (the move order is dropped).
    Nothing,
    /// Another unit of the player is selected instead.
    Select(u64),
    /// The selected unit attacks this enemy unit.
    Attack(u64),
    /// The selected unit is asked to move onto this tile.
    Move(usize),
}

/// The first military unit of another nation than `owner` on `tile`, other than `me`.
pub open spec fn enemy_military_on(units: Seq<MapUnit>, tile: usize, owner: usize, me: u64) -> Option<u64>
    decreases units.len(),
{
    if units.len() == 0 {
        None
    } else {
        let u = units[0];
        if u.entity != me && u.tile == tile && u.military && u.owner != owner {
            Some(u.entity)
        } else {
            enemy_military_on(units.drop_first(), tile, owner, me)
        }
    }
}

/// What a click does while the move order of the `selected` unit (with `movement`
/// points left) is active: with no movement left, nothing. A click on another unit of
/// the player selects it. A click on a tile the unit can reach moves it there, except
/// that a military unit attacks the first enemy military unit on an adjacent tile.
/// Any other click does nothing.
pub open spec fn spec_move_click(
    selected: MapUnit,
    movement: u32,
    player: usize,
    clicked_unit: Option<MapUnit>,
    target_tile: usize,
    reachable: Seq<usize>,
    adjacent: bool,
    units: Seq<MapUnit>,
) -> MoveClick {
    if movement == 0 {
        MoveClick::Nothing
    } else if clicked_unit is Some && clicked_unit->0.entity != selected.entity && clicked_unit->0.owner == player {
        MoveClick::Select(clicked_unit->0.entity)
    } else if reachable.contains(target_tile) {
        match enemy_military_on(units, target_tile, selected.owner, selected.entity) {
            Some(e) => if selected.military && adjacent {
                MoveClick::Attack(e)
            } else {
                MoveClick::Move(target_tile)
            },
            None => MoveClick::Move(target_tile),
        }
    } else {
        MoveClick::Nothing
    }
}

/// Decides what a click on `target_tile` does while the selected unit's move order is
/// active (see [`spec_move_click`]). `clicked_unit` is the unit clicked, if the click
/// hit one; `reachable` the tiles the unit can reach this turn; `adjacent` whether the
/// target borders the unit's tile.
pub fn move_click_action(
    selected: MapUnit,
    movement: u32,
    player: usize,
    clicked_unit: Option<MapUnit>,
    target_tile: usize,
    reachable: &Vec<usize>,
    adjacent: bool,
    units: &Vec<MapUnit>,
) -> (r: MoveClick)
    ensures
        r == spec_move_click(selected, movement, player, clicked_unit, target_tile, reachable@, adjacent, units@),
{
    if movement == 0 {
        return MoveClick::Nothing;
    }
    match clicked_unit {
        Some(c) => {
            if c.entity != selected.entity && c.owner == player {
                return MoveClick::Select(c.entity);
            }
        },
        None => {},
    }
    let mut found = false;
    let mut i: usize = 0;
    while i < reachable.len()
        invariant
            0 <= i <= reachable.len(),
            found == exists|j: int| 0 <= j < i && reachable@[j] == target_tile,
        decreases reachable.len() - i,
    {
        if reachable[i] == target_tile {
            found = true;
        }
        i = i + 1;
    }
    if !found {
        return MoveClick::Nothing;
    }
    let mut enemy: Option<u64> = None;
    let mut k: usize = 0;
    assert(units@.skip(0) =~= units@);
    while k < units.len() && enemy.is_none()
        invariant
            0 <= k <= units.len(),
            enemy is None ==> enemy_military_on(units@, target_tile, selected.owner, selected.entity)
                == enemy_military_on(units@.skip(k as int), target_tile, selected.owner, selected.entity),
            enemy is Some ==> enemy_military_on(units@, target_tile, selected.owner, selected.entity)
                == enemy,
        decreases units.len() - k,
    {
        let u = units[k];
        assert(units@.skip(k as int)[0] == u);
        assert(units@.skip(k as int).drop_first() =~= units@.skip(k + 1));
        if u.entity != selected.entity && u.tile == target_tile && u.military && u.owner != selected.owner {
            enemy = Some(u.entity);
        }
        k = k + 1;
    }
    match enemy {
        Some(e) => if selected.military && adjacent {
            MoveClick::Attack(e)
        } else {
            MoveClick::Move(target_tile)
        },
        None => {
            assert(units@.skip(k as int).len() == 0);
            MoveClick::Move(target_tile)
        },
    }
}


/// The unit a click on `clicked` attacks: the first listed unit with that entity that
/// belongs to another nation than the attacker and stands on one of `adjacent_tiles`
/// (the tiles next to the attacker).
pub open spec fn spec_attack_target(attacker: MapUnit, clicked: u64, units: Seq<MapUnit>, adjacent_tiles: Seq<usize>) -> Option<u64>
    decreases units.len(),
{
    if units.len() == 0 {
        None
    } else {
        let u = units[0];
        if u.entity == clicked && u.owner != attacker.owner && adjacent_tiles.contains(u.tile) {
            Some(u.entity)
        } else {
            spec_attack_target(attacker, clicked, units.drop_first(), adjacent_tiles)
        }
    }
}

/// Decides what a click on the unit `clicked` attacks while the attack order is shown:
/// the clicked unit when it belongs to another nation and stands next to the attacker,
/// else nothing.
pub fn attack_click_target(attacker: MapUnit, clicked: u64, units: &Vec<MapUnit>, adjacent_tiles: &Vec<usize>) -> (r: Option<u64>)
    ensures
        r == spec_attack_target(attacker, clicked, units@, adjacent_tiles@),
{
    let mut k: usize = 0;
    assert(units@.skip(0) =~= units@);
    while k < units.len()
        invariant
            0 <= k <= units.len(),
            spec_attack_target(attacker, clicked, units@, adjacent_tiles@) == spec_attack_target(
                attacker,
                clicked,
                units@.skip(k as int),
                adjacent_tiles@,
            ),
        decreases units.len() - k,
    {
        let u = units[k];
        assert(units@.skip(k as int)[0] == u);
        assert(units@.skip(k as int).drop_first() =~= units@.skip(k + 1));
        if u.entity == clicked && u.owner != attacker.owner {
            let mut found = false;
            let mut i: usize = 0;
            while i < adjacent_tiles.len()
                invariant
                    0 <= i <= adjacent_tiles.len(),
                    found == exists|j: int| 0 <= j < i && adjacent_tiles@[j] == u.tile,
                decreases adjacent_tiles.len() - i,
            {
                if adjacent_tiles[i] == u.tile {
                    found = true;
                }
                i = i + 1;
            }
            if found {
                return Some(u.entity);
            }
        }
        k = k + 1;
    }
    None
}

} // verus!
