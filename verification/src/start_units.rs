//! The units every side starts the game with: each civilization a settler and a
//! warrior (or the unit of its own that replaces the warrior), each city state a
//! settler, all on their starting tiles.

use vstd::prelude::*;

verus! {

/// Whose unit a unit of the rules is, and which unit it stands in for.
#[derive(Clone, Copy, Debug, PartialEq, Eq, Structural)]
pub struct UnitLineage {
    /// The nation that alone may have it, if any.
    pub unique_to: Option<usize>,
    /// The unit it replaces for that nation, if any.
    pub replaces: Option<usize>,
}

/// The starting units, by tile: each tile listed once with the units placed on it.
#[derive(Clone, Debug)]
pub struct UnitListResource(pub Vec<(usize, Vec<usize>)>);

/// Unit `u` is the nation's own replacement of the warrior.
pub open spec fn replaces_warrior(units: Seq<UnitLineage>, u: int, nation: usize, warrior: usize) -> bool {
    units[u].unique_to == Some(nation) && units[u].replaces == Some(warrior)
}

/// The first unit from position `i` on that replaces the nation's warrior.
pub open spec fn first_replacement(units: Seq<UnitLineage>, nation: usize, warrior: usize, i: int) -> Option<usize>
    decreases units.len() - i,
{
    if i < 0 || i >= units.len() {
        None
    } else if replaces_warrior(units, i, nation, warrior) {
        Some(i as usize)
    } else {
        first_replacement(units, nation, warrior, i + 1)
    }
}

/// The military unit a nation starts with: the first of its own units that replaces
/// the warrior, else the warrior.
pub open spec fn military_unit(units: Seq<UnitLineage>, nation: usize, warrior: usize) -> usize {
    match first_replacement(units, nation, warrior, 0) {
        Some(u) => u,
        None => warrior,
    }
}

/// The units placed on `tile` by the first `n` civilizations: for each that starts
/// there, its military unit and a settler.
pub open spec fn civ_units_at(
    civs: Seq<(usize, usize)>,
    units: Seq<UnitLineage>,
    warrior: usize,
    settler: usize,
    tile: usize,
    n: int,
) -> Seq<usize>
    decreases n,
{
    if n <= 0 {
        Seq::empty()
    } else {
        let prev = civ_units_at(civs, units, warrior, settler, tile, n - 1);
        if civs[n - 1].0 == tile {
            prev.push(military_unit(units, civs[n - 1].1, warrior)).push(settler)
        } else {
            prev
        }
    }
}

/// The settlers placed on `tile` by the first `n` city states.
pub open spec fn state_units_at(states: Seq<usize>, settler: usize, tile: usize, n: int) -> Seq<usize>
    decreases n,
{
    if n <= 0 {
        Seq::empty()
    } else {
        let prev = state_units_at(states, settler, tile, n - 1);
        if states[n - 1] == tile {
            prev.push(settler)
        } else {
            prev
        }
    }
}

/// Some side starts on `tile`.
pub open spec fn is_start(civs: Seq<(usize, usize)>, states: Seq<usize>, tile: usize) -> bool {
    (exists|k: int| 0 <= k < civs.len() && #[trigger] civs[k].0 == tile) || states.contains(tile)
}

/// The nation's military unit at the start.
fn military_unit_of(units: &Vec<UnitLineage>, nation: usize, warrior: usize) -> (r: usize)
    ensures
        r == military_unit(units@, nation, warrior),
{
    let mut u: usize = 0;
    while u < units.len()
        invariant
            0 <= u <= units.len(),
            first_replacement(units@, nation, warrior, 0) == first_replacement(units@, nation, warrior, u as int),
        decreases units.len() - u,
    {
        if units[u].unique_to == Some(nation) && units[u].replaces == Some(warrior) {
            return u;
        }
        u = u + 1;
    }
    warrior
}

/// Where `tile` stands among the listed tiles, if it does.
fn position_of_tile(tiles: &Vec<usize>, tile: usize) -> (r: Option<usize>)
    ensures
        match r {
            Some(j) => j < tiles.len() && tiles@[j as int] == tile,
            None => !tiles@.contains(tile),
        },
{
    let mut j: usize = 0;
    while j < tiles.len()
        invariant
            0 <= j <= tiles.len(),
            forall|k: int| 0 <= k < j ==> tiles@[k] != tile,
        decreases tiles.len() - j,
    {
        if tiles[j] == tile {
            return Some(j);
        }
        j = j + 1;
    }
    None
}

/// One unit, or two.
pub open spec fn units_added(first: usize, second: Option<usize>) -> Seq<usize> {
    match second {
        Some(s) => seq![first, s],
        None => seq![first],
    }
}

/// Adds `first` and `second` to the units listed for `tile`, listing the tile first when it is new.
fn add_units(tiles: &mut Vec<usize>, lists: &mut Vec<Vec<usize>>, tile: usize, first: usize, second: Option<usize>)
    requires
        old(tiles).len() == old(lists).len(),
        old(tiles)@.no_duplicates(),
    ensures
        final(tiles).len() == final(lists).len(),
        final(tiles)@.no_duplicates(),
        forall|x: usize| #[trigger] final(tiles)@.contains(x) <==> old(tiles)@.contains(x) || x == tile,
        forall|j: int|
            0 <= j < final(tiles).len() ==> #[trigger] final(lists)@[j]@ == if final(tiles)@[j] == tile {
                (if old(tiles)@.contains(tile) {
                    old(lists)@[old(tiles)@.index_of(tile)]@
                } else {
                    Seq::empty()
                }) + units_added(first, second)
            } else {
                old(lists)@[old(tiles)@.index_of(final(tiles)@[j])]@
            },
{
    let ghost t0 = tiles@;
    let ghost l0 = lists@;
    let ghost more = units_added(first, second);
    match position_of_tile(tiles, tile) {
        Some(j) => {
            let mut list = lists.remove(j);
            list.push(first);
            match second {
                Some(s) => list.push(s),
                None => {},
            }
            lists.insert(j, list);
            proof {
                assert forall|i: int| 0 <= i < tiles.len() implies #[trigger] lists@[i]@ == if tiles@[i] == tile {
                    (if t0.contains(tile) {
                        l0[t0.index_of(tile)]@
                    } else {
                        Seq::empty()
                    }) + more
                } else {
                    l0[t0.index_of(tiles@[i])]@
                } by {
                    t0.index_of_first_ensures(tiles@[i]);
                    assert(t0.contains(tiles@[i]));
                    if i != j {
                        assert(lists@[i] == l0[i]);
                    } else {
                        assert(lists@[i]@ =~= l0[i]@ + more);
                    }
                }
            }
        },
        None => {
            let mut list: Vec<usize> = Vec::new();
            list.push(first);
            match second {
                Some(s) => list.push(s),
                None => {},
            }
            tiles.push(tile);
            lists.push(list);
            proof {
                assert forall|x: usize| #[trigger] tiles@.contains(x) <==> t0.contains(x) || x == tile by {
                    if tiles@.contains(x) {
                        let k = choose|k: int| 0 <= k < tiles.len() && tiles@[k] == x;
                        if k < t0.len() {
                            assert(t0[k] == x);
                        }
                    }
                    if t0.contains(x) {
                        let k = choose|k: int| 0 <= k < t0.len() && t0[k] == x;
                        assert(tiles@[k] == x);
                    }
                    if x == tile {
                        assert(tiles@[t0.len() as int] == x);
                    }
                }
                assert forall|i: int| 0 <= i < tiles.len() implies #[trigger] lists@[i]@ == if tiles@[i] == tile {
                    (if t0.contains(tile) {
                        l0[t0.index_of(tile)]@
                    } else {
                        Seq::empty()
                    }) + more
                } else {
                    l0[t0.index_of(tiles@[i])]@
                } by {
                    if i < t0.len() {
                        assert(tiles@[i] == t0[i]);
                        assert(t0.contains(t0[i]));
                        t0.index_of_first_ensures(t0[i]);
                        assert(lists@[i] == l0[i]);
                    } else {
                        assert(lists@[i]@ =~= Seq::<usize>::empty() + more);
                    }
                }
                assert forall|a: int, b: int| 0 <= a < tiles.len() && 0 <= b < tiles.len() && a != b implies tiles@[a] != tiles@[b] by {
                    if a < t0.len() && b < t0.len() {
                    } else if a < t0.len() {
                        assert(t0.contains(t0[a]));
                    } else {
                        assert(t0.contains(t0[b]));
                    }
                }
            }
        },
    }
}


/// No civilization among the first `n` starts on `tile`: none of their units is there.
proof fn lemma_no_civ_here(
    civs: Seq<(usize, usize)>,
    units: Seq<UnitLineage>,
    warrior: usize,
    settler: usize,
    tile: usize,
    n: int,
)
    requires
        0 <= n <= civs.len(),
        forall|k: int| 0 <= k < n ==> #[trigger] civs[k].0 != tile,
    ensures
        civ_units_at(civs, units, warrior, settler, tile, n) == Seq::<usize>::empty(),
    decreases n,
{
    if n > 0 {
        lemma_no_civ_here(civs, units, warrior, settler, tile, n - 1);
    }
}

/// No city state among the first `n` starts on `tile`: no settler of theirs is there.
proof fn lemma_no_state_here(states: Seq<usize>, settler: usize, tile: usize, n: int)
    requires
        0 <= n <= states.len(),
        forall|k: int| 0 <= k < n ==> #[trigger] states[k] != tile,
    ensures
        state_units_at(states, settler, tile, n) == Seq::<usize>::empty(),
    decreases n,
{
    if n > 0 {
        lemma_no_state_here(states, settler, tile, n - 1);
    }
}

/// The units the sides start with, by starting tile: on each tile, for every
/// civilization that starts there (in the order given) its military unit
/// ([`military_unit`]) and a settler, then a settler for every city state that
/// starts there. Every starting tile is listed once, and no other tile.
pub fn game_initialization(
    civs: &Vec<(usize, usize)>,
    city_states: &Vec<usize>,
    units: &Vec<UnitLineage>,
    warrior: usize,
    settler: usize,
) -> (r: UnitListResource)
    ensures
        forall|a: int, b: int| 0 <= a < b < r.0.len() ==> r.0@[a].0 != r.0@[b].0,
        forall|tile: usize| is_start(civs@, city_states@, tile) ==> exists|j: int| 0 <= j < r.0.len() && #[trigger] r.0@[j].0 == tile,
        forall|j: int|
            0 <= j < r.0.len() ==> is_start(civs@, city_states@, #[trigger] r.0@[j].0) && r.0@[j].1@ == civ_units_at(
                civs@,
                units@,
                warrior,
                settler,
                r.0@[j].0,
                civs.len() as int,
            ) + state_units_at(city_states@, settler, r.0@[j].0, city_states.len() as int),
{
    let mut tiles: Vec<usize> = Vec::new();
    let mut lists: Vec<Vec<usize>> = Vec::new();
    let mut c: usize = 0;
    while c < civs.len()
        invariant
            0 <= c <= civs.len(),
            tiles.len() == lists.len(),
            tiles@.no_duplicates(),
            forall|x: usize| #[trigger] tiles@.contains(x) <==> exists|k: int| 0 <= k < c && #[trigger] civs@[k].0 == x,
            forall|j: int|
                0 <= j < tiles.len() ==> #[trigger] lists@[j]@ == civ_units_at(civs@, units@, warrior, settler, tiles@[j], c as int)
                    + state_units_at(city_states@, settler, tiles@[j], 0),
        decreases civs.len() - c,
    {
        let (tile, nation) = civs[c];
        let m = military_unit_of(units, nation, warrior);
        let ghost t0 = tiles@;
        let ghost l0 = lists@;
        add_units(&mut tiles, &mut lists, tile, m, Some(settler));
        proof {
            assert forall|x: usize| #[trigger] tiles@.contains(x) <==> exists|k: int| 0 <= k < c + 1 && #[trigger] civs@[k].0 == x by {
                if x == tile {
                    assert(civs@[c as int].0 == x);
                }
                if exists|k: int| 0 <= k < c + 1 && #[trigger] civs@[k].0 == x {
                    let k = choose|k: int| 0 <= k < c + 1 && #[trigger] civs@[k].0 == x;
                    if k < c {
                        assert(t0.contains(x));
                    }
                }
            }
            assert forall|j: int| 0 <= j < tiles.len() implies #[trigger] lists@[j]@ == civ_units_at(
                civs@,
                units@,
                warrior,
                settler,
                tiles@[j],
                c + 1,
            ) + state_units_at(city_states@, settler, tiles@[j], 0) by {
                let x = tiles@[j];
                assert(tiles@.contains(x));
                if x == tile {
                    if t0.contains(tile) {
                        t0.index_of_first_ensures(tile);
                        let i = t0.index_of(tile);
                        assert(l0[i]@ == civ_units_at(civs@, units@, warrior, settler, tile, c as int) + Seq::<usize>::empty());
                    } else {
                        assert forall|k: int| 0 <= k < c implies #[trigger] civs@[k].0 != tile by {
                            if civs@[k].0 == tile {
                                assert(t0.contains(tile));
                            }
                        }
                        lemma_no_civ_here(civs@, units@, warrior, settler, tile, c as int);
                    }
                    assert(lists@[j]@ =~= civ_units_at(civs@, units@, warrior, settler, x, c + 1) + Seq::<usize>::empty());
                } else {
                    assert(t0.contains(x));
                    t0.index_of_first_ensures(x);
                    let i = t0.index_of(x);
                    assert(t0[i] == x);
                }
            }
        }
        c = c + 1;
    }
    let mut s: usize = 0;
    while s < city_states.len()
        invariant
            c == civs.len(),
            0 <= s <= city_states.len(),
            tiles.len() == lists.len(),
            tiles@.no_duplicates(),
            forall|x: usize| #[trigger] tiles@.contains(x) <==> (exists|k: int| 0 <= k < c && #[trigger] civs@[k].0 == x)
                || city_states@.take(s as int).contains(x),
            forall|j: int|
                0 <= j < tiles.len() ==> #[trigger] lists@[j]@ == civ_units_at(civs@, units@, warrior, settler, tiles@[j], c as int)
                    + state_units_at(city_states@, settler, tiles@[j], s as int),
        decreases city_states.len() - s,
    {
        let tile = city_states[s];
        let ghost t0 = tiles@;
        let ghost l0 = lists@;
        add_units(&mut tiles, &mut lists, tile, settler, None);
        proof {
            assert forall|x: usize| #[trigger] tiles@.contains(x) <==> (exists|k: int| 0 <= k < c && #[trigger] civs@[k].0 == x)
                || city_states@.take(s + 1).contains(x) by {
                if city_states@.take(s + 1).contains(x) {
                    let k = choose|k: int| 0 <= k < s + 1 && #[trigger] city_states@.take(s + 1)[k] == x;
                    if k < s {
                        assert(city_states@.take(s as int)[k] == x);
                    } else {
                        assert(x == tile);
                    }
                }
                if city_states@.take(s as int).contains(x) {
                    let k = choose|k: int| 0 <= k < s && #[trigger] city_states@.take(s as int)[k] == x;
                    assert(city_states@.take(s + 1)[k] == x);
                }
                if x == tile {
                    assert(city_states@.take(s + 1)[s as int] == x);
                }
            }
            assert forall|j: int| 0 <= j < tiles.len() implies #[trigger] lists@[j]@ == civ_units_at(
                civs@,
                units@,
                warrior,
                settler,
                tiles@[j],
                c as int,
            ) + state_units_at(city_states@, settler, tiles@[j], s + 1) by {
                let x = tiles@[j];
                assert(tiles@.contains(x));
                if x == tile {
                    if t0.contains(tile) {
                        t0.index_of_first_ensures(tile);
                        let i = t0.index_of(tile);
                        assert(t0[i] == tile);
                    } else {
                        assert forall|k: int| 0 <= k < c implies #[trigger] civs@[k].0 != tile by {
                            if civs@[k].0 == tile {
                                assert(t0.contains(tile));
                            }
                        }
                        assert forall|k: int| 0 <= k < s implies #[trigger] city_states@[k] != tile by {
                            if city_states@[k] == tile {
                                assert(city_states@.take(s as int)[k] == tile);
                                assert(t0.contains(tile));
                            }
                        }
                        lemma_no_civ_here(civs@, units@, warrior, settler, tile, c as int);
                        lemma_no_state_here(city_states@, settler, tile, s as int);
                    }
                    assert(lists@[j]@ =~= civ_units_at(civs@, units@, warrior, settler, x, c as int) + state_units_at(
                        city_states@,
                        settler,
                        x,
                        s + 1,
                    ));
                } else {
                    assert(t0.contains(x));
                    t0.index_of_first_ensures(x);
                    let i = t0.index_of(x);
                    assert(t0[i] == x);
                }
            }
        }
        s = s + 1;
    }
    proof {
        assert(city_states@.take(city_states.len() as int) =~= city_states@);
    }
    let ghost tf = tiles@;
    let ghost lf = lists@;
    let mut out: Vec<(usize, Vec<usize>)> = Vec::new();
    while tiles.len() > 0
        invariant
            tiles.len() == lists.len(),
            tiles.len() + out.len() == tf.len(),
            tf.len() == lf.len(),
            tf.no_duplicates(),
            tiles@ == tf.take(tiles.len() as int),
            lists@ == lf.take(lists.len() as int),
            forall|k: int| 0 <= k < out.len() ==> #[trigger] out@[k].0 == tf[tf.len() - 1 - k] && out@[k].1 == lf[tf.len() - 1 - k],
        decreases tiles.len(),
    {
        let t = tiles.pop().unwrap();
        let l = lists.pop().unwrap();
        out.push((t, l));
        proof {
            assert(tiles@ =~= tf.take(tiles.len() as int));
            assert(lists@ =~= lf.take(lists.len() as int));
        }
    }
    proof {
        let m = tf.len();
        assert forall|a: int, b: int| 0 <= a < b < out.len() implies out@[a].0 != out@[b].0 by {
            assert(out@[a].0 == tf[m - 1 - a]);
            assert(out@[b].0 == tf[m - 1 - b]);
        }
        assert forall|tile: usize| is_start(civs@, city_states@, tile) implies exists|j: int| 0 <= j < out.len() && #[trigger] out@[j].0 == tile by {
            if exists|k: int| 0 <= k < civs.len() && #[trigger] civs@[k].0 == tile {
                assert(tf.contains(tile));
            } else {
                assert(city_states@.contains(tile));
                assert(tf.contains(tile));
            }
            let i = choose|i: int| 0 <= i < m && tf[i] == tile;
            assert(out@[m - 1 - i].0 == tile);
        }
    }
    let r = UnitListResource(out);
    proof {
        assert forall|tile: usize| is_start(civs@, city_states@, tile) implies exists|j: int| 0 <= j < r.0.len() && #[trigger] r.0@[j].0 == tile by {
            let j = choose|j: int| 0 <= j < out.len() && #[trigger] out@[j].0 == tile;
            assert(r.0@[j].0 == tile);
        }
        assert forall|j: int| 0 <= j < out.len() implies is_start(civs@, city_states@, #[trigger] out@[j].0) && out@[j].1@ == civ_units_at(
            civs@,
            units@,
            warrior,
            settler,
            out@[j].0,
            civs.len() as int,
        ) + state_units_at(city_states@, settler, out@[j].0, city_states.len() as int) by {
            let i = tf.len() - 1 - j;
            assert(out@[j].0 == tf[i]);
            assert(tf.contains(tf[i]));
        }
    }
    r
}

} // verus!
